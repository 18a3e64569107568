//! Percolation on an n-by-n grid of sites, numbered row by row from 0: a site
//! is full when an open path of orthogonal steps joins it to an open site of
//! the top row.
use vstd::prelude::*;
use crate::union_find::{merge_roots, singletons, PathCompressionWeightedQuickUnion, UnionFind};
pub use crate::packed::HackUnionFindPercolation;
use vstd::arithmetic::div_mod::{
    lemma_div_pos_is_pos, lemma_fundamental_div_mod, lemma_fundamental_div_mod_converse, lemma_mod_multiples_basic,
    lemma_mod_pos_bound, lemma_small_mod,
};

verus! {

/// `y` is an orthogonal neighbour of site `x` on the n-by-n grid (no wrapping).
pub open spec fn is_neighbor(n: int, x: int, y: int) -> bool {
    &&& n > 0
    &&& 0 <= x < n * n
    &&& {
        ||| (x >= n && y == x - n)
        ||| (x < n * (n - 1) && y == x + n)
        ||| (x % n > 0 && y == x - 1)
        ||| (x % n < n - 1 && y == x + 1)
    }
}

/// `path` is a walk of orthogonal steps through open sites.
pub open spec fn is_open_path(n: int, open: Seq<bool>, path: Seq<int>) -> bool {
    &&& path.len() > 0
    &&& forall|i: int| 0 <= i < path.len() ==> 0 <= #[trigger] path[i] < open.len() && open[path[i]]
    &&& forall|i: int| 0 <= i < path.len() - 1 ==> is_neighbor(n, #[trigger] path[i], path[i + 1])
}

/// An open path leads from `x` to `y`.
pub open spec fn linked(n: int, open: Seq<bool>, x: int, y: int) -> bool {
    exists|path: Seq<int>| #[trigger] is_open_path(n, open, path) && path[0] == x && path.last() == y
}

/// Site `y` is joined by an open path to an open site of the top row.
#[verifier::opaque]
pub open spec fn reachable(n: int, open: Seq<bool>, y: int) -> bool {
    exists|t: int| 0 <= t < n && #[trigger] linked(n, open, t, y)
}

/// Some site of the bottom row is full.
pub open spec fn percolates_spec(n: int, open: Seq<bool>) -> bool {
    exists|c: int| 0 <= c < n && #[trigger] reachable(n, open, (n - 1) * n + c)
}

/// `full` marks exactly the sites that an open path joins to the top, shown
/// by four local facts: full sites are open and reachable, fullness spreads to
/// every open neighbour, and open sites of the top row are full.
pub open spec fn fill_complete(n: int, open: Seq<bool>, full: Seq<bool>) -> bool {
    &&& open.len() == n * n
    &&& full.len() == n * n
    &&& forall|x: int| 0 <= x < n * n && #[trigger] full[x] ==> open[x] && reachable(n, open, x)
    &&& forall|x: int| 0 <= x < n && #[trigger] open[x] ==> full[x]
    &&& forall|x: int, y: int| #[trigger] is_neighbor(n, x, y) && full[x] && open[y] ==> #[trigger] full[y]
}

/// The neighbour relation is symmetric.
pub proof fn lemma_neighbor_symmetric(n: int, x: int, y: int)
    requires
        is_neighbor(n, x, y),
    ensures
        is_neighbor(n, y, x),
        0 <= y < n * n,
{
    assert(n * (n - 1) == n * n - n) by (nonlinear_arith);
    lemma_fundamental_div_mod(x, n);
    lemma_mod_pos_bound(x, n);
    lemma_div_pos_is_pos(x, n);
    let q = x / n;
    let r = x % n;
    assert(x == q * n + r) by (nonlinear_arith)
        requires x == n * q + r;
    assert(q * n >= 0) by (nonlinear_arith)
        requires q >= 0, n > 0;
    if x >= n && y == x - n {
    } else if x < n * (n - 1) && y == x + n {
    } else if r > 0 && y == x - 1 {
        lemma_fundamental_div_mod_converse(y, n, q, r - 1);
    } else {
        lemma_fundamental_div_mod_converse(y, n, q, r + 1);
        if y == n * n {
            lemma_mod_multiples_basic(n, n);
        }
    }
}

/// A single open site is linked to itself.
pub proof fn lemma_linked_self(n: int, open: Seq<bool>, x: int)
    requires
        0 <= x < open.len(),
        open[x],
    ensures
        linked(n, open, x, x),
{
    let path = seq![x];
    assert(is_open_path(n, open, path));
}

/// A path extends by an open neighbour.
pub proof fn lemma_linked_step(n: int, open: Seq<bool>, x: int, w: int, y: int)
    requires
        linked(n, open, x, w),
        is_neighbor(n, w, y),
        0 <= y < open.len(),
        open[y],
    ensures
        linked(n, open, x, y),
{
    let path = choose|path: Seq<int>| #[trigger] is_open_path(n, open, path) && path[0] == x && path.last() == w;
    let longer = path.push(y);
    assert forall|i: int| 0 <= i < longer.len() - 1 implies is_neighbor(n, #[trigger] longer[i], longer[i + 1]) by {
        if i < path.len() - 1 {
            assert(longer[i] == path[i] && longer[i + 1] == path[i + 1]);
        }
    }
    assert(is_open_path(n, open, longer));
}

/// Paths join end to end.
pub proof fn lemma_linked_trans(n: int, open: Seq<bool>, x: int, y: int, z: int)
    requires
        linked(n, open, x, y),
        linked(n, open, y, z),
    ensures
        linked(n, open, x, z),
{
    let head = choose|path: Seq<int>| #[trigger] is_open_path(n, open, path) && path[0] == x && path.last() == y;
    let tail = choose|path: Seq<int>| #[trigger] is_open_path(n, open, path) && path[0] == y && path.last() == z;
    let p = head + tail.drop_first();
    assert forall|i: int| 0 <= i < p.len() implies 0 <= #[trigger] p[i] < open.len() && open[p[i]] by {
        if i >= head.len() {
            assert(p[i] == tail[i - head.len() + 1]);
        }
    }
    assert forall|i: int| 0 <= i < p.len() - 1 implies is_neighbor(n, #[trigger] p[i], p[i + 1]) by {
        if i < head.len() - 1 {
            assert(p[i] == head[i] && p[i + 1] == head[i + 1]);
        } else if i == head.len() - 1 {
            assert(p[i] == tail[0] && p[i + 1] == tail[1]);
        } else {
            assert(p[i] == tail[i - head.len() + 1] && p[i + 1] == tail[i - head.len() + 2]);
        }
    }
    assert(is_open_path(n, open, p));
    if tail.len() == 1 {
        assert(p.last() == head.last());
    } else {
        assert(p.last() == tail.last());
    }
}

/// A path read backwards is a path.
pub proof fn lemma_linked_symmetric(n: int, open: Seq<bool>, x: int, y: int)
    requires
        linked(n, open, x, y),
    ensures
        linked(n, open, y, x),
{
    let p = choose|path: Seq<int>| #[trigger] is_open_path(n, open, path) && path[0] == x && path.last() == y;
    let r = Seq::new(p.len(), |i: int| p[p.len() - 1 - i]);
    assert forall|i: int| 0 <= i < r.len() implies 0 <= #[trigger] r[i] < open.len() && open[r[i]] by {
        assert(r[i] == p[p.len() - 1 - i]);
    }
    assert forall|i: int| 0 <= i < r.len() - 1 implies is_neighbor(n, #[trigger] r[i], r[i + 1]) by {
        let j = p.len() - 2 - i;
        assert(r[i] == p[j + 1] && r[i + 1] == p[j]);
        assert(is_neighbor(n, p[j], p[j + 1]));
        lemma_neighbor_symmetric(n, p[j], p[j + 1]);
    }
    assert(is_open_path(n, open, r));
}

/// Opening more sites keeps every path.
pub proof fn lemma_linked_monotone(n: int, open: Seq<bool>, open2: Seq<bool>, x: int, y: int)
    requires
        linked(n, open, x, y),
        open2.len() == open.len(),
        forall|i: int| 0 <= i < open.len() && #[trigger] open[i] ==> open2[i],
    ensures
        linked(n, open2, x, y),
{
    let p = choose|path: Seq<int>| #[trigger] is_open_path(n, open, path) && path[0] == x && path.last() == y;
    assert forall|i: int| 0 <= i < p.len() implies 0 <= #[trigger] p[i] < open2.len() && open2[p[i]] by {
        assert(open[p[i]]);
    }
    assert(is_open_path(n, open2, p));
}

/// Opening more sites keeps every reachable site reachable.
pub proof fn lemma_reachable_monotone(n: int, open: Seq<bool>, open2: Seq<bool>, y: int)
    requires
        reachable(n, open, y),
        open2.len() == open.len(),
        forall|i: int| 0 <= i < open.len() && #[trigger] open[i] ==> open2[i],
    ensures
        reachable(n, open2, y),
{
    reveal(reachable);
    let t = choose|t: int| 0 <= t < n && #[trigger] linked(n, open, t, y);
    lemma_linked_monotone(n, open, open2, t, y);
}

/// An open path from a reachable site ends at a reachable site.
pub proof fn lemma_reachable_linked(n: int, open: Seq<bool>, w: int, y: int)
    requires
        reachable(n, open, w),
        linked(n, open, w, y),
    ensures
        reachable(n, open, y),
{
    reveal(reachable);
    let t = choose|t: int| 0 <= t < n && #[trigger] linked(n, open, t, w);
    lemma_linked_trans(n, open, t, w, y);
}

/// One open step from a reachable site reaches its neighbour.
pub proof fn lemma_reachable_step(n: int, open: Seq<bool>, w: int, y: int)
    requires
        reachable(n, open, w),
        is_neighbor(n, w, y),
        0 <= y < open.len(),
        open[y],
    ensures
        reachable(n, open, y),
{
    reveal(reachable);
    let t = choose|t: int| 0 <= t < n && #[trigger] linked(n, open, t, w);
    lemma_linked_step(n, open, t, w, y);
}

/// A full site is open: a reachable site ends an open path.
pub proof fn law_full_is_open(n: int, open: Seq<bool>, y: int)
    requires
        reachable(n, open, y),
    ensures
        0 <= y < open.len(),
        open[y],
{
    reveal(reachable);
    let t = choose|t: int| 0 <= t < n && #[trigger] linked(n, open, t, y);
    let path = choose|path: Seq<int>| #[trigger] is_open_path(n, open, path) && path[0] == t && path.last() == y;
    assert(path[path.len() - 1] == y);
}

/// An open site of the top row is reachable.
pub proof fn lemma_top_reachable(n: int, open: Seq<bool>, x: int)
    requires
        0 <= x < n,
        x < open.len(),
        open[x],
    ensures
        reachable(n, open, x),
{
    reveal(reachable);
    lemma_linked_self(n, open, x);
}

/// Under `fill_complete`, a site is full exactly when it is reachable.
pub proof fn lemma_full_iff_reachable(n: int, open: Seq<bool>, full: Seq<bool>, y: int)
    requires
        fill_complete(n, open, full),
        0 <= y < n * n,
    ensures
        full[y] == reachable(n, open, y),
{
    reveal(reachable);
    if reachable(n, open, y) {
        let t = choose|t: int| 0 <= t < n && #[trigger] linked(n, open, t, y);
        let p = choose|path: Seq<int>| #[trigger] is_open_path(n, open, path) && path[0] == t && path.last() == y;
        lemma_path_full(n, open, full, p, p.len() - 1);
    }
}

proof fn lemma_path_full(n: int, open: Seq<bool>, full: Seq<bool>, p: Seq<int>, i: int)
    requires
        fill_complete(n, open, full),
        is_open_path(n, open, p),
        0 <= p[0] < n,
        0 <= i < p.len(),
    ensures
        full[p[i]],
    decreases i,
{
    if i > 0 {
        lemma_path_full(n, open, full, p, i - 1);
        assert(is_neighbor(n, p[i - 1], p[(i - 1) + 1]));
        assert(open[p[i]]);
    } else {
        assert(open[p[0]]);
    }
}

/// Row `row` and column `col` (both from 1) as a site number.
pub open spec fn site(n: nat, row: int, col: int) -> int {
    (row - 1) * n + (col - 1)
}

/// `full` is complete except around the sites in `pending`: what
/// `fill_complete` asks, with fullness not yet spread from those sites.
pub open spec fn fill_pending(n: int, open: Seq<bool>, full: Seq<bool>, pending: Seq<usize>) -> bool {
    &&& open.len() == n * n
    &&& full.len() == n * n
    &&& forall|x: int| 0 <= x < n * n && #[trigger] full[x] ==> open[x] && reachable(n, open, x)
    &&& forall|x: int| 0 <= x < n && #[trigger] open[x] ==> full[x]
    &&& forall|x: int, y: int| #[trigger] is_neighbor(n, x, y) && full[x] && open[y] && !#[trigger] full[y]
        ==> pending.contains(x as usize)
}

/// Number of sites not yet full.
pub open spec fn count_unfilled(s: Seq<bool>) -> nat
    decreases s.len(),
{
    if s.len() == 0 {
        0
    } else {
        count_unfilled(s.drop_last()) + if s.last() { 0nat } else { 1nat }
    }
}

pub(crate) proof fn lemma_count_unfilled_update(s: Seq<bool>, i: int)
    requires
        0 <= i < s.len(),
        !s[i],
    ensures
        count_unfilled(s.update(i, true)) + 1 == count_unfilled(s),
    decreases s.len(),
{
    let t = s.update(i, true);
    if i < s.len() - 1 {
        assert(t.drop_last() =~= s.drop_last().update(i, true));
        lemma_count_unfilled_update(s.drop_last(), i);
    } else {
        assert(t.drop_last() =~= s.drop_last());
    }
}

/// Between `full0` with stack `popped` and `full` with `stack`: fullness only
/// grew, the stack only grew, and each newly full site was pushed once.
#[verifier::opaque]
pub open spec fn fill_progress(full0: Seq<bool>, popped: Seq<usize>, full: Seq<bool>, stack: Seq<usize>) -> bool {
    &&& full.len() == full0.len()
    &&& forall|z: int| 0 <= z < full0.len() && #[trigger] full0[z] ==> full[z]
    &&& stack.len() >= popped.len()
    &&& stack.subrange(0, popped.len() as int) == popped
    &&& forall|z: int| 0 <= z < full.len() && #[trigger] full[z] && !full0[z] ==> stack.contains(z as usize)
    &&& forall|i: int| popped.len() <= i < stack.len() ==> (#[trigger] stack[i] as int) < full.len() && full[stack[i] as int]
    &&& count_unfilled(full) + stack.len() == count_unfilled(full0) + popped.len()
}

pub(crate) proof fn lemma_fill_progress(
    full0: Seq<bool>,
    popped: Seq<usize>,
    full: Seq<bool>,
    stack: Seq<usize>,
    full2: Seq<bool>,
    stack2: Seq<usize>,
    y: usize,
)
    requires
        fill_progress(full0, popped, full, stack),
        (0 <= y < full.len() && !full[y as int] && full2 == full.update(y as int, true) && stack2 == stack.push(y))
            || (full2 == full && stack2 == stack),
    ensures
        fill_progress(full0, popped, full2, stack2),
{
    reveal(fill_progress);
    if stack2 != stack {
        lemma_count_unfilled_update(full, y as int);
        assert(stack2.subrange(0, popped.len() as int) =~= stack.subrange(0, popped.len() as int));
        assert(stack2[stack.len() as int] == y);
        assert forall|z: int| 0 <= z < full2.len() && #[trigger] full2[z] && !full0[z] implies stack2.contains(z as usize) by {
            if z == y {
                assert(stack2[stack.len() as int] == y);
            } else {
                let i = choose|i: int| 0 <= i < stack.len() && stack[i] == z as usize;
                assert(stack2[i] == z as usize);
            }
        }
        assert forall|i: int| popped.len() <= i < stack2.len() implies (#[trigger] stack2[i] as int) < full2.len() && full2[stack2[i] as int] by {
            if i < stack.len() {
                assert(stack2[i] == stack[i]);
            }
        }
    }
}

pub(crate) proof fn lemma_fill_progress_start(full: Seq<bool>, stack: Seq<usize>)
    ensures
        fill_progress(full, stack, full, stack),
{
    reveal(fill_progress);
    assert(stack.subrange(0, stack.len() as int) =~= stack);
    assert forall|z: int| 0 <= z < full.len() && #[trigger] full[z] && !full[z] implies stack.contains(z as usize) by {
    }
}

/// The state of one site.
#[derive(PartialEq, Eq, Structural, Clone, Copy)]
pub enum State {
    Close,
    Open,
    Full,
}

pub open spec fn open_view(states: Seq<State>) -> Seq<bool> {
    states.map_values(|s: State| s != State::Close)
}

pub open spec fn full_view(states: Seq<State>) -> Seq<bool> {
    states.map_values(|s: State| s == State::Full)
}

/// Site operations of a grid of sites numbered row by row.
pub trait Ext: Sized {
    spec fn wf(&self) -> bool;

    spec fn side(&self) -> nat;

    spec fn open_cells(&self) -> Seq<bool>;

    spec fn full_cells(&self) -> Seq<bool>;

    fn cell_index(&self, row: usize, col: usize) -> (r: usize)
        requires
            self.wf(),
            1 <= row <= self.side(),
            1 <= col <= self.side(),
        ensures
            r == site(self.side(), row as int, col as int),
            r < self.side() * self.side(),
    ;

    /// Spreads fullness from `index` to every open site that an open path
    /// joins to it.
    fn fill_neighbors(&mut self, index: usize)
        requires
            old(self).wf(),
            index < old(self).side() * old(self).side(),
            old(self).full_cells()[index as int],
            fill_pending(old(self).side() as int, old(self).open_cells(), old(self).full_cells(), seq![index]),
        ensures
            final(self).wf(),
            final(self).side() == old(self).side(),
            final(self).open_cells() == old(self).open_cells(),
            fill_complete(final(self).side() as int, final(self).open_cells(), final(self).full_cells()),
    ;

    fn is_open_by_index(&self, index: usize) -> (r: bool)
        requires
            self.wf(),
            index < self.side() * self.side(),
        ensures
            r == self.open_cells()[index as int],
    ;

    fn is_full_by_index(&self, index: usize) -> (r: bool)
        requires
            self.wf(),
            index < self.side() * self.side(),
        ensures
            r == self.full_cells()[index as int],
    ;

    fn has_top_neighbor(&self, index: usize) -> (r: bool)
        requires
            self.wf(),
        ensures
            r == (index >= self.side()),
    ;

    fn has_left_neighbor(&self, index: usize) -> (r: bool)
        requires
            self.wf(),
            self.side() > 0,
        ensures
            r == (index as int % self.side() as int > 0),
    ;

    fn has_right_neighbor(&self, index: usize) -> (r: bool)
        requires
            self.wf(),
            self.side() > 0,
        ensures
            r == ((index as int % self.side() as int) < self.side() - 1),
    ;

    fn has_bottom_neighbor(&self, index: usize) -> (r: bool)
        requires
            self.wf(),
            self.side() > 0,
        ensures
            r == (index < self.side() * (self.side() - 1)),
    ;

    fn make_open(&mut self, index: usize)
        requires
            old(self).wf(),
            index < old(self).side() * old(self).side(),
            !old(self).open_cells()[index as int],
        ensures
            final(self).wf(),
            final(self).side() == old(self).side(),
            final(self).open_cells() == old(self).open_cells().update(index as int, true),
            final(self).full_cells() == old(self).full_cells(),
    ;

    fn make_full(&mut self, index: usize)
        requires
            old(self).wf(),
            index < old(self).side() * old(self).side(),
            old(self).open_cells()[index as int],
        ensures
            final(self).wf(),
            final(self).side() == old(self).side(),
            final(self).open_cells() == old(self).open_cells(),
            final(self).full_cells() == old(self).full_cells().update(index as int, true),
    ;
}

/// An n-by-n grid of sites, each closed, open, or full.
pub struct PercolationBase {
    states: Vec<State>,
    side_size: usize,
}

impl PercolationBase {
    /// A grid of `side_size` by `side_size` closed sites.
    pub fn new(side_size: usize) -> (r: PercolationBase)
        requires
            side_size * side_size <= usize::MAX,
        ensures
            r.wf(),
            r.side() == side_size,
            r.open_cells() == Seq::new((side_size * side_size) as nat, |i: int| false),
            r.full_cells() == Seq::new((side_size * side_size) as nat, |i: int| false),
    {
        let length = side_size * side_size;
        let mut states: Vec<State> = Vec::with_capacity(length);
        let mut i: usize = 0;
        while i < length
            invariant
                i <= length,
                states@.len() == i,
                forall|j: int| 0 <= j < i ==> states@[j] == State::Close,
            decreases length - i,
        {
            states.push(State::Close);
            i = i + 1;
        }
        let r = PercolationBase { states, side_size };
        assert(r.open_cells() =~= Seq::new((side_size * side_size) as nat, |i: int| false));
        assert(r.full_cells() =~= Seq::new((side_size * side_size) as nat, |i: int| false));
        r
    }

    pub fn side_size(&self) -> (r: usize)
        ensures
            r == self.side(),
    {
        self.side_size
    }

    /// Spreads fullness from the full site `x` to each of its open neighbours.
    #[verifier::rlimit(30)]
    fn spread_all(&mut self, x: usize, stack: &mut Vec<usize>)
        requires
            old(self).wf(),
            old(self).side() > 0,
            (x as int) < old(self).side() * old(self).side(),
            old(self).full_cells()[x as int],
            forall|z: int| 0 <= z < old(self).side() * old(self).side() && #[trigger] old(self).full_cells()[z]
                ==> old(self).open_cells()[z] && reachable(old(self).side() as int, old(self).open_cells(), z),
        ensures
            final(self).wf(),
            final(self).side() == old(self).side(),
            final(self).open_cells() == old(self).open_cells(),
            fill_progress(old(self).full_cells(), old(stack)@, final(self).full_cells(), final(stack)@),
            forall|y: int| #[trigger] is_neighbor(old(self).side() as int, x as int, y) && old(self).open_cells()[y]
                ==> final(self).full_cells()[y],
            forall|z: int| 0 <= z < old(self).side() * old(self).side() && #[trigger] final(self).full_cells()[z]
                ==> old(self).open_cells()[z] && reachable(old(self).side() as int, old(self).open_cells(), z),
    {
        let ghost n = self.side() as int;
        let ghost open = self.open_cells();
        let ghost full0 = self.full_cells();
        let ghost xi = x as int;
        let n_exec = self.side_size;
        assert(n * (n - 1) + n == n * n) by (nonlinear_arith);
        proof {
            lemma_fill_progress_start(full0, stack@);
            if xi == 0 {
                lemma_small_mod(0, n as nat);
            }
        }
        if self.has_top_neighbor(x) {
            let ghost (f1, s1) = (self.full_cells(), stack@);
            self.spread(x, x - n_exec, stack);
            proof {
                lemma_fill_progress(full0, old(stack)@, f1, s1, self.full_cells(), stack@, (x - n_exec) as usize);
            }
        }
        assert(xi >= n ==> (self.full_cells()[xi - n] || !open[xi - n]));
        if self.has_right_neighbor(x) {
            let ghost (f1, s1) = (self.full_cells(), stack@);
            self.spread(x, x + 1, stack);
            proof {
                lemma_fill_progress(full0, old(stack)@, f1, s1, self.full_cells(), stack@, (x + 1) as usize);
            }
        }
        assert(xi >= n ==> (self.full_cells()[xi - n] || !open[xi - n]));
        assert(xi % n < n - 1 ==> (self.full_cells()[xi + 1] || !open[xi + 1]));
        if self.has_left_neighbor(x) {
            let ghost (f1, s1) = (self.full_cells(), stack@);
            self.spread(x, x - 1, stack);
            proof {
                lemma_fill_progress(full0, old(stack)@, f1, s1, self.full_cells(), stack@, (x - 1) as usize);
            }
        }
        assert(xi >= n ==> (self.full_cells()[xi - n] || !open[xi - n]));
        assert(xi % n < n - 1 ==> (self.full_cells()[xi + 1] || !open[xi + 1]));
        assert(xi % n > 0 ==> (self.full_cells()[xi - 1] || !open[xi - 1]));
        if self.has_bottom_neighbor(x) {
            let ghost (f1, s1) = (self.full_cells(), stack@);
            self.spread(x, x + n_exec, stack);
            proof {
                lemma_fill_progress(full0, old(stack)@, f1, s1, self.full_cells(), stack@, (x + n_exec) as usize);
            }
        }
        proof {
            let full = self.full_cells();
            assert(xi >= n ==> (full[xi - n] || !open[xi - n]));
            assert(xi % n < n - 1 ==> (full[xi + 1] || !open[xi + 1]));
            assert(xi % n > 0 ==> (full[xi - 1] || !open[xi - 1]));
            assert(xi < n * (n - 1) ==> (full[xi + n] || !open[xi + n]));
        }
    }

    /// Marks `y`, a neighbour of the full site `x`, full and schedules it,
    /// when it is open and not yet full.
    fn spread(&mut self, x: usize, y: usize, stack: &mut Vec<usize>)
        requires
            old(self).wf(),
            is_neighbor(old(self).side() as int, x as int, y as int),
            old(self).full_cells()[x as int],
            forall|z: int| 0 <= z < old(self).side() * old(self).side() && #[trigger] old(self).full_cells()[z]
                ==> old(self).open_cells()[z] && reachable(old(self).side() as int, old(self).open_cells(), z),
        ensures
            final(self).wf(),
            final(self).side() == old(self).side(),
            final(self).open_cells() == old(self).open_cells(),
            forall|z: int| 0 <= z < old(self).full_cells().len() && #[trigger] old(self).full_cells()[z] ==> final(self).full_cells()[z],
            final(self).full_cells().len() == old(self).full_cells().len(),
            final(self).full_cells()[y as int] || !old(self).open_cells()[y as int],
            (y as int) < old(self).full_cells().len(),
            ({
                let n = old(self).side() as int;
                let open = old(self).open_cells();
                if open[y as int] && !old(self).full_cells()[y as int] {
                    &&& final(self).full_cells() == old(self).full_cells().update(y as int, true)
                    &&& final(stack)@ == old(stack)@.push(y)
                    &&& reachable(n, open, y as int)
                } else {
                    &&& final(self).full_cells() == old(self).full_cells()
                    &&& final(stack)@ == old(stack)@
                }
            }),
    {
        proof {
            lemma_neighbor_symmetric(self.side() as int, x as int, y as int);
        }
        if self.is_open_by_index(y) && !self.is_full_by_index(y) {
            proof {
                lemma_reachable_step(self.side() as int, self.open_cells(), x as int, y as int);
            }
            self.make_full(y);
            stack.push(y);
        }
    }
}

impl Ext for PercolationBase {
    closed spec fn wf(&self) -> bool {
        &&& self.states@.len() == self.side_size * self.side_size
        &&& self.side_size * self.side_size <= usize::MAX
    }

    closed spec fn side(&self) -> nat {
        self.side_size as nat
    }

    closed spec fn open_cells(&self) -> Seq<bool> {
        open_view(self.states@)
    }

    closed spec fn full_cells(&self) -> Seq<bool> {
        full_view(self.states@)
    }

    fn is_open_by_index(&self, index: usize) -> (r: bool) {
        self.states[index] != State::Close
    }

    fn is_full_by_index(&self, index: usize) -> (r: bool) {
        self.states[index] == State::Full
    }

    fn has_top_neighbor(&self, index: usize) -> (r: bool) {
        index >= self.side_size
    }

    fn has_left_neighbor(&self, index: usize) -> (r: bool) {
        index % self.side_size > 0
    }

    fn has_right_neighbor(&self, index: usize) -> (r: bool) {
        index % self.side_size < self.side_size - 1
    }

    fn has_bottom_neighbor(&self, index: usize) -> (r: bool) {
        proof {
            assert(self.side_size * (self.side_size - 1) <= self.side_size * self.side_size) by (nonlinear_arith)
                requires self.side_size > 0;
        }
        index < self.side_size * (self.side_size - 1)
    }

    fn cell_index(&self, row: usize, col: usize) -> (r: usize) {
        proof {
            assert((row - 1) * self.side_size + col - 1 < self.side_size * self.side_size) by (nonlinear_arith)
                requires 1 <= row <= self.side_size, 1 <= col <= self.side_size;
        }
        (row - 1) * self.side_size + col - 1
    }

    fn make_open(&mut self, index: usize) {
        self.states.set(index, State::Open);
        assert(self.open_cells() =~= old(self).open_cells().update(index as int, true));
        assert(self.full_cells() =~= old(self).full_cells());
    }

    fn make_full(&mut self, index: usize) {
        self.states.set(index, State::Full);
        assert(self.open_cells() =~= old(self).open_cells());
        assert(self.full_cells() =~= old(self).full_cells().update(index as int, true));
    }

    #[verifier::rlimit(30)]
    fn fill_neighbors(&mut self, index: usize) {
        let ghost n = self.side() as int;
        let ghost open = self.open_cells();
        let n_exec = self.side_size;
        assert(n > 0) by (nonlinear_arith)
            requires 0 <= index < n * n, n >= 0;
        let mut stack: Vec<usize> = Vec::new();
        stack.push(index);
        assert(stack@ =~= seq![index]);
        while stack.len() > 0
            invariant
                self.wf(),
                self.side() == n,
                n == n_exec,
                n > 0,
                self.open_cells() == open,
                fill_pending(n, open, self.full_cells(), stack@),
                forall|i: int| 0 <= i < stack@.len() ==> (#[trigger] stack@[i] as int) < n * n && self.full_cells()[stack@[i] as int],
            decreases count_unfilled(self.full_cells()), stack@.len(),
        {
            let ghost full0 = self.full_cells();
            let ghost stack0 = stack@;
            let x = stack.pop().unwrap();
            let ghost popped = stack@;
            assert(popped =~= stack0.drop_last());
            assert(stack0.last() == x);
            let ghost xi = x as int;
            proof {
                assert(popped =~= stack@);
                lemma_fill_progress_start(full0, popped);
            }
            self.spread_all(x, &mut stack);
            proof {
                reveal(fill_progress);
                let full = self.full_cells();
                assert forall|a: int, b: int| #[trigger] is_neighbor(n, a, b) && full[a] && open[b] && !#[trigger] full[b]
                    implies stack@.contains(a as usize) by {
                    lemma_neighbor_symmetric(n, a, b);
                    if a != xi {
                        if full0[a] {
                            assert(!full0[b]);
                            assert(stack0.contains(a as usize));
                            let i = choose|i: int| 0 <= i < stack0.len() && stack0[i] == a as usize;
                            assert(i < popped.len());
                            assert(popped[i] == a as usize);
                            assert(stack@.subrange(0, popped.len() as int)[i] == a as usize);
                            assert(stack@[i] == a as usize);
                        }
                    }
                }
                assert(n <= n * n) by (nonlinear_arith)
                    requires n > 0;
                assert forall|x: int| 0 <= x < n && #[trigger] open[x] implies full[x] by {
                    assert(full0[x]);
                }
                assert forall|x: int| 0 <= x < n * n && #[trigger] full[x] implies open[x] && reachable(n, open, x) by {
                }
                assert(full.len() == n * n);
                assert forall|i: int| 0 <= i < stack@.len() implies (#[trigger] stack@[i] as int) < n * n && full[stack@[i] as int] by {
                    if i < popped.len() {
                        assert(stack@.subrange(0, popped.len() as int)[i] == popped[i]);
                        assert(popped[i] == stack0[i]);
                    }
                }
            }
        }
    }
}

/// An n-by-n percolation system: sites open one at a time; a site is full
/// when an open path joins it to the top row.
pub trait Percolation: Sized {
    spec fn wf(&self) -> bool;

    /// The number of rows (and of columns).
    spec fn side(&self) -> nat;

    /// For each site, numbered row by row, whether it is open.
    spec fn open_cells(&self) -> Seq<bool>;

    /// There is one entry per site.
    proof fn lemma_site_count(&self)
        requires
            self.wf(),
        ensures
            self.open_cells().len() == self.side() * self.side(),
    ;

    /// Opens the site at `row` and `col` (both from 1); nothing changes if it
    /// is open already.
    fn open(&mut self, row: usize, col: usize)
        requires
            old(self).wf(),
            1 <= row <= old(self).side(),
            1 <= col <= old(self).side(),
        ensures
            final(self).wf(),
            final(self).side() == old(self).side(),
            final(self).open_cells() == old(self).open_cells().update(site(old(self).side(), row as int, col as int), true),
    ;

    fn is_open(&self, row: usize, col: usize) -> (r: bool)
        requires
            self.wf(),
            1 <= row <= self.side(),
            1 <= col <= self.side(),
        ensures
            r == self.open_cells()[site(self.side(), row as int, col as int)],
    ;

    /// Whether an open path joins the site to an open site of the top row.
    fn is_full(&self, row: usize, col: usize) -> (r: bool)
        requires
            self.wf(),
            1 <= row <= self.side(),
            1 <= col <= self.side(),
        ensures
            r == reachable(self.side() as int, self.open_cells(), site(self.side(), row as int, col as int)),
    ;

    /// Whether some site of the bottom row is full.
    fn percolates(&self) -> (r: bool)
        requires
            self.wf(),
        ensures
            r == percolates_spec(self.side() as int, self.open_cells()),
    ;
}

/// After opening `index` in a complete state, decide whether `index` is full:
/// it is when it lies in the top row or has a full neighbour. Both outcomes
/// are handled here: either `index` has become reachable, or nothing else
/// is needed.
pub(crate) proof fn lemma_open_site(n: int, open: Seq<bool>, full: Seq<bool>, index: int)
    requires
        fill_complete(n, open, full),
        0 <= index < n * n,
        !open[index],
    ensures
        ({
            let open2 = open.update(index, true);
            let joins = index < n || exists|w: int| #[trigger] is_neighbor(n, index, w) && full[w];
            &&& joins ==> reachable(n, open2, index)
            &&& joins ==> fill_pending(n, open2, full.update(index, true), seq![index as usize])
            &&& !joins ==> fill_complete(n, open2, full)
        }),
{
    let open2 = open.update(index, true);
    let joins = index < n || exists|w: int| #[trigger] is_neighbor(n, index, w) && full[w];
    assert(n <= 0 || n <= n * n) by (nonlinear_arith);
    assert forall|x: int| 0 <= x < n * n && #[trigger] full[x] implies open2[x] && reachable(n, open2, x) by {
        lemma_reachable_monotone(n, open, open2, x);
    }
    assert(!full[index]);
    if joins {
        if index < n {
            lemma_top_reachable(n, open2, index);
        } else {
            let w = choose|w: int| #[trigger] is_neighbor(n, index, w) && full[w];
            lemma_neighbor_symmetric(n, index, w);
            lemma_reachable_monotone(n, open, open2, w);
            lemma_reachable_step(n, open2, w, index);
        }
        let full2 = full.update(index, true);
        assert forall|x: int| 0 <= x < n * n && #[trigger] full2[x] implies open2[x] && reachable(n, open2, x) by {
            if x != index {
                assert(full[x]);
            }
        }
        assert forall|x: int| 0 <= x < n && #[trigger] open2[x] implies full2[x] by {
            if x != index {
                assert(open[x]);
            }
        }
        assert forall|x: int, y: int| #[trigger] is_neighbor(n, x, y) && full2[x] && open2[y] && !#[trigger] full2[y]
            implies seq![index as usize].contains(x as usize) by {
            lemma_neighbor_symmetric(n, x, y);
            if x != index {
                assert(y != index);
                assert(full[x]);
                assert(open[y]);
                assert(full[y]);
            }
            assert(seq![index as usize][0] == index as usize);
        }
        assert(fill_pending(n, open2, full2, seq![index as usize]));
    } else {
        assert forall|x: int| 0 <= x < n && #[trigger] open2[x] implies full[x] by {
            if x != index {
                assert(open[x]);
            }
        }
        assert forall|x: int, y: int| #[trigger] is_neighbor(n, x, y) && full[x] && open2[y] implies #[trigger] full[y] by {
            lemma_neighbor_symmetric(n, x, y);
            if y == index {
                assert(is_neighbor(n, index, x) && full[x]);
                assert(joins);
            } else {
                assert(open[y]);
            }
        }
    }
}

/// Percolation that spreads fullness by a flood fill over the grid alone.
pub struct BruteForcePercolation {
    base: PercolationBase,
}

impl BruteForcePercolation {
    /// A `side_size` by `side_size` grid with every site closed.
    pub fn new(side_size: usize) -> (r: BruteForcePercolation)
        requires
            side_size * side_size <= usize::MAX,
        ensures
            r.wf(),
            r.side() == side_size,
            r.open_cells() == Seq::new((side_size * side_size) as nat, |i: int| false),
    {
        let base = PercolationBase::new(side_size);
        let r = BruteForcePercolation { base };
        proof {
            let n = side_size as int;
            assert forall|x: int, y: int| #[trigger] is_neighbor(n, x, y) && r.base.full_cells()[x] && r.base.open_cells()[y]
                implies #[trigger] r.base.full_cells()[y] by {
            }
        }
        r
    }

    /// Whether the site at `index` has a full neighbour.
    fn has_full_neighbor(&self, index: usize) -> (r: bool)
        requires
            self.base.wf(),
            (index as int) < self.base.side() * self.base.side(),
        ensures
            r == exists|w: int| #[trigger] is_neighbor(self.base.side() as int, index as int, w) && self.base.full_cells()[w],
    {
        let ghost n = self.base.side() as int;
        let side = self.base.side_size();
        assert(n > 0) by (nonlinear_arith)
            requires 0 <= index < n * n, n >= 0;
        assert(n * (n - 1) + n == n * n) by (nonlinear_arith);
        if index == 0 {
            proof {
                lemma_small_mod(0, n as nat);
            }
        }
        let ghost i = index as int;
        if self.base.has_top_neighbor(index) {
            assert(is_neighbor(n, i, i - n));
            if self.base.is_full_by_index(index - side) {
                return true;
            }
        }
        if self.base.has_bottom_neighbor(index) {
            assert(is_neighbor(n, i, i + n));
            if self.base.is_full_by_index(index + side) {
                return true;
            }
        }
        if self.base.has_left_neighbor(index) {
            assert(is_neighbor(n, i, i - 1));
            if self.base.is_full_by_index(index - 1) {
                return true;
            }
        }
        if self.base.has_right_neighbor(index) {
            assert(is_neighbor(n, i, i + 1));
            proof {
                lemma_neighbor_symmetric(n, i, i + 1);
            }
            if self.base.is_full_by_index(index + 1) {
                return true;
            }
        }
        assert forall|w: int| #[trigger] is_neighbor(n, i, w) implies !self.base.full_cells()[w] by {
        }
        false
    }
}

impl Percolation for BruteForcePercolation {
    closed spec fn wf(&self) -> bool {
        &&& self.base.wf()
        &&& fill_complete(self.base.side() as int, self.base.open_cells(), self.base.full_cells())
    }

    closed spec fn side(&self) -> nat {
        self.base.side()
    }

    closed spec fn open_cells(&self) -> Seq<bool> {
        self.base.open_cells()
    }

    proof fn lemma_site_count(&self) {
    }

    fn open(&mut self, row: usize, col: usize) {
        let index = self.base.cell_index(row, col);
        if self.base.is_open_by_index(index) {
            assert(self.open_cells() =~= old(self).open_cells().update(index as int, true));
            return;
        }
        let ghost n = self.base.side() as int;
        let ghost open0 = self.base.open_cells();
        let ghost full0 = self.base.full_cells();
        proof {
            lemma_open_site(n, open0, full0, index as int);
        }
        assert((index as int) < n <==> row == 1) by (nonlinear_arith)
            requires index == (row - 1) * n + (col - 1), 1 <= row, 1 <= col <= n;
        let joins = row == 1 || self.has_full_neighbor(index);
        self.base.make_open(index);
        if joins {
            self.base.make_full(index);
            self.base.fill_neighbors(index);
        }
    }

    fn is_open(&self, row: usize, col: usize) -> (r: bool) {
        let index = self.base.cell_index(row, col);
        self.base.is_open_by_index(index)
    }

    fn is_full(&self, row: usize, col: usize) -> (r: bool) {
        let index = self.base.cell_index(row, col);
        proof {
            lemma_full_iff_reachable(self.base.side() as int, self.base.open_cells(), self.base.full_cells(), index as int);
        }
        self.base.is_full_by_index(index)
    }

    fn percolates(&self) -> (r: bool) {
        let side = self.base.side_size();
        assert(side < usize::MAX) by (nonlinear_arith)
            requires side * side <= usize::MAX;
        let mut col: usize = 1;
        while col <= side
            invariant
                self.wf(),
                side == self.side(),
                side < usize::MAX,
                1 <= col <= side + 1,
                forall|c: int| 0 <= c < col - 1 ==> !#[trigger] reachable(side as int, self.open_cells(), (side - 1) * side + c),
            decreases side + 1 - col,
        {
            if self.is_full(side, col) {
                return true;
            }
            col = col + 1;
        }
        false
    }
}

/// The set rooted at `x` holds `x` alone.
pub open spec fn alone(roots: Map<usize, usize>, x: usize) -> bool {
    forall|z: usize| roots.contains_key(z) && #[trigger] roots[z] == x ==> z == x
}

/// How the union-find `roots` over the sites and one virtual site `n * n`
/// follows the open sites: the top row shares the virtual site's set; a closed
/// site below the top row is a set of its own; open neighbours share a set
/// (pairs that touch `skip` excepted); two open sites in one set are joined by
/// an open path or are both reachable; and an open site in the virtual site's
/// set is reachable.
pub open spec fn uf_tracks(n: int, open: Seq<bool>, roots: Map<usize, usize>, skip: int) -> bool {
    let v = (n * n) as usize;
    &&& 0 <= n
    &&& n * n < usize::MAX
    &&& forall|x: usize| roots.contains_key(x) <==> x <= n * n
    &&& forall|t: usize| t < n ==> #[trigger] roots[t] == roots[v]
    &&& forall|x: usize| n <= x < n * n && !open[x as int] ==> #[trigger] roots[x] == x
    &&& forall|x: usize| n <= x < n * n && !open[x as int] ==> #[trigger] alone(roots, x)
    &&& forall|x: int, y: int| #[trigger] is_neighbor(n, x, y) && open[x] && open[y] && x != skip && y != skip
        ==> roots[x as usize] == roots[y as usize]
    &&& forall|x: usize, z: usize| x < n * n && z < n * n && open[x as int] && open[z as int] && #[trigger] roots[x] == #[trigger] roots[z]
        ==> linked(n, open, x as int, z as int) || (reachable(n, open, x as int) && reachable(n, open, z as int))
    &&& forall|x: usize| x < n * n && open[x as int] && #[trigger] roots[x] == roots[v] ==> reachable(n, open, x as int)
}

/// Sets only merge from `roots` to `roots2`.
pub open spec fn coarser(roots: Map<usize, usize>, roots2: Map<usize, usize>) -> bool {
    forall|x: usize, y: usize| roots.contains_key(x) && roots.contains_key(y) && #[trigger] roots[x] == #[trigger] roots[y]
        ==> roots2[x] == roots2[y]
}

/// Joining the sets of two neighbouring open sites keeps `uf_tracks`.
pub(crate) proof fn lemma_union_tracks(n: int, open: Seq<bool>, roots: Map<usize, usize>, skip: int, a: usize, b: usize, r: usize)
    requires
        open.len() == n * n,
        uf_tracks(n, open, roots, skip),
        is_neighbor(n, a as int, b as int),
        open[a as int],
        open[b as int],
        r == roots[a] || r == roots[b],
    ensures
        uf_tracks(n, open, merge_roots(roots, roots[a], roots[b], r), skip),
        coarser(roots, merge_roots(roots, roots[a], roots[b], r)),
        merge_roots(roots, roots[a], roots[b], r)[a] == merge_roots(roots, roots[a], roots[b], r)[b],
{
    let v = (n * n) as usize;
    let ra = roots[a];
    let rb = roots[b];
    let m = merge_roots(roots, ra, rb, r);
    lemma_neighbor_symmetric(n, a as int, b as int);
    let ai = a as int;
    let bi = b as int;
    lemma_linked_self(n, open, ai);
    lemma_linked_step(n, open, ai, ai, bi);
    lemma_linked_symmetric(n, open, ai, bi);
    assert(linked(n, open, ai, bi) && linked(n, open, bi, ai));
    assert(roots.contains_key(a) && roots.contains_key(b) && roots.contains_key(v));
    assert forall|x: usize, y: usize| roots.contains_key(x) && roots.contains_key(y) && #[trigger] roots[x] == #[trigger] roots[y]
        implies m[x] == m[y] by {
    }
    assert forall|x: usize| m.contains_key(x) <==> x <= n * n by {
    }
    assert forall|t: usize| t < n implies #[trigger] m[t] == m[v] by {
        assert(n <= n * n) by (nonlinear_arith)
            requires n > 0;
        assert(roots.contains_key(t));
        assert(roots[t] == roots[v]);
    }
    assert forall|x: int, y: int| #[trigger] is_neighbor(n, x, y) && open[x] && open[y] && x != skip && y != skip
        implies m[x as usize] == m[y as usize] by {
        lemma_neighbor_symmetric(n, x, y);
        assert(roots[x as usize] == roots[y as usize]);
        assert(roots.contains_key(x as usize) && roots.contains_key(y as usize));
    }
    assert forall|x: usize| n <= x < n * n && !open[x as int] implies ra != x && rb != x by {
        assert(roots[x] == x);
        assert(alone(roots, x));
        if ra == x {
            assert(roots.contains_key(a) && roots[a] == x);
            assert(a == x);
        }
        if rb == x {
            assert(roots.contains_key(b) && roots[b] == x);
            assert(b == x);
        }
    }
    assert forall|x: usize| n <= x < n * n && !open[x as int] implies #[trigger] m[x] == x by {
        assert(roots[x] == x);
    }
    assert forall|x: usize| n <= x < n * n && !open[x as int] implies #[trigger] alone(m, x) by {
        assert(alone(roots, x));
        assert forall|z: usize| m.contains_key(z) && #[trigger] m[z] == x implies z == x by {
            assert(roots[z] == x);
        }
    }
    assert forall|x: usize, z: usize| x < n * n && z < n * n && open[x as int] && open[z as int] && #[trigger] m[x] == #[trigger] m[z]
        implies linked(n, open, x as int, z as int) || (reachable(n, open, x as int) && reachable(n, open, z as int)) by {
        let xi = x as int;
        let zi = z as int;
        if roots[x] != roots[z] {
            assert((roots[x] == ra || roots[x] == rb) && (roots[z] == ra || roots[z] == rb));
            let (p, q) = if roots[x] == ra { (ai, bi) } else { (bi, ai) };
            assert(roots[p as usize] == roots[x] && roots[q as usize] == roots[z]);
            assert(linked(n, open, p, q) && linked(n, open, q, p));
            // x ~ p, q ~ z (each by a path or by both ends being reachable)
            if linked(n, open, xi, p) && linked(n, open, q, zi) {
                lemma_linked_trans(n, open, xi, p, q);
                lemma_linked_trans(n, open, xi, q, zi);
            } else if linked(n, open, xi, p) {
                assert(reachable(n, open, q) && reachable(n, open, zi));
                lemma_reachable_linked(n, open, q, p);
                lemma_linked_symmetric(n, open, xi, p);
                lemma_reachable_linked(n, open, p, xi);
            } else if linked(n, open, q, zi) {
                assert(reachable(n, open, xi) && reachable(n, open, p));
                lemma_reachable_linked(n, open, p, q);
                lemma_reachable_linked(n, open, q, zi);
            }
        }
    }
    assert forall|x: usize| x < n * n && open[x as int] && #[trigger] m[x] == m[v] implies reachable(n, open, x as int) by {
        let xi = x as int;
        if roots[x] != roots[v] {
            assert((roots[x] == ra || roots[x] == rb) && (roots[v] == ra || roots[v] == rb));
            let (p, q) = if roots[x] == ra { (ai, bi) } else { (bi, ai) };
            assert(roots[q as usize] == roots[v]);
            assert(reachable(n, open, q));
            lemma_reachable_linked(n, open, q, p);
            if linked(n, open, xi, p) {
                lemma_linked_symmetric(n, open, xi, p);
                lemma_reachable_linked(n, open, p, xi);
            }
        }
    }
}

/// Under `uf_tracks` with nothing skipped, a reachable site shares the
/// virtual site's set.
pub(crate) proof fn lemma_reachable_joined(n: int, open: Seq<bool>, roots: Map<usize, usize>, y: int)
    requires
        open.len() == n * n,
        uf_tracks(n, open, roots, -1),
        reachable(n, open, y),
    ensures
        roots[y as usize] == roots[(n * n) as usize],
{
    reveal(reachable);
    let t = choose|t: int| 0 <= t < n && #[trigger] linked(n, open, t, y);
    let p = choose|path: Seq<int>| #[trigger] is_open_path(n, open, path) && path[0] == t && path.last() == y;
    lemma_path_joined(n, open, roots, p, p.len() - 1);
}

proof fn lemma_path_joined(n: int, open: Seq<bool>, roots: Map<usize, usize>, p: Seq<int>, i: int)
    requires
        open.len() == n * n,
        uf_tracks(n, open, roots, -1),
        is_open_path(n, open, p),
        0 <= p[0] < n,
        0 <= i < p.len(),
    ensures
        roots[p[i] as usize] == roots[(n * n) as usize],
    decreases i,
{
    if i > 0 {
        lemma_path_joined(n, open, roots, p, i - 1);
        assert(is_neighbor(n, p[i - 1], p[(i - 1) + 1]));
        assert(open[p[i - 1]] && open[p[i]]);
    } else {
        assert(roots[p[0] as usize] == roots[(n * n) as usize]);
    }
}

/// Opening a closed site keeps `uf_tracks`, with the pairs at that site still
/// to be joined.
pub(crate) proof fn lemma_open_tracks(n: int, open: Seq<bool>, roots: Map<usize, usize>, index: int)
    requires
        open.len() == n * n,
        uf_tracks(n, open, roots, -1),
        0 <= index < n * n,
        !open[index],
    ensures
        uf_tracks(n, open.update(index, true), roots, index),
{
    let v = (n * n) as usize;
    let open2 = open.update(index, true);
    let iu = index as usize;
    assert(roots.contains_key(iu) && roots.contains_key(v));
    assert forall|x: usize, z: usize| x < n * n && z < n * n && open2[x as int] && open2[z as int] && #[trigger] roots[x] == #[trigger] roots[z]
        implies linked(n, open2, x as int, z as int) || (reachable(n, open2, x as int) && reachable(n, open2, z as int)) by {
        let xi = x as int;
        let zi = z as int;
        if xi != index && zi != index {
            if linked(n, open, xi, zi) {
                lemma_linked_monotone(n, open, open2, xi, zi);
            } else {
                lemma_reachable_monotone(n, open, open2, xi);
                lemma_reachable_monotone(n, open, open2, zi);
            }
        } else if xi == index && zi == index {
            lemma_linked_self(n, open2, xi);
        } else {
            let (c, o) = if xi == index { (x, z) } else { (z, x) };
            assert(roots[c] == roots[o]);
            assert(open[o as int]);
            if index >= n {
                assert(alone(roots, c));
                assert(roots[c] == c);
                assert(roots.contains_key(o));
                assert(o == c);
            } else {
                assert(roots[c] == roots[v]);
                assert(reachable(n, open, o as int));
                lemma_reachable_monotone(n, open, open2, o as int);
                lemma_top_reachable(n, open2, index);
            }
        }
    }
    assert forall|x: usize| x < n * n && open2[x as int] && #[trigger] roots[x] == roots[v] implies reachable(n, open2, x as int) by {
        if x as int != index {
            assert(open[x as int]);
            assert(reachable(n, open, x as int));
            lemma_reachable_monotone(n, open, open2, x as int);
        } else if index >= n {
            assert(n <= iu < n * n && !open[iu as int]);
            assert(alone(roots, iu));
            assert(roots[iu] == iu);
            assert(roots[v] == iu);
            assert(v == iu);
        } else {
            lemma_top_reachable(n, open2, index);
        }
    }
    assert forall|x: int, y: int| #[trigger] is_neighbor(n, x, y) && open2[x] && open2[y] && x != index && y != index
        implies roots[x as usize] == roots[y as usize] by {
        lemma_neighbor_symmetric(n, x, y);
        assert(open[x] && open[y]);
    }
    assert forall|x: usize| n <= x < n * n && !open2[x as int] implies #[trigger] roots[x] == x by {
        assert(!open[x as int]);
    }
    assert forall|x: usize| n <= x < n * n && !open2[x as int] implies #[trigger] alone(roots, x) by {
        assert(!open[x as int]);
    }
}

/// Percolation that asks a union-find, holding the open sites and a virtual
/// site joined to the whole top row, whether a newly opened site is full.
pub struct UnionFindPercolation {
    union_find: PathCompressionWeightedQuickUnion,
    virtual_cell: usize,
    base: PercolationBase,
}

impl UnionFindPercolation {
    /// A `side_size` by `side_size` grid with every site closed.
    pub fn new(side_size: usize) -> (r: UnionFindPercolation)
        requires
            side_size * side_size < usize::MAX,
        ensures
            r.wf(),
            r.side() == side_size,
            r.open_cells() == Seq::new((side_size * side_size) as nat, |i: int| false),
    {
        let ghost n = side_size as int;
        let length = side_size * side_size;
        let virtual_cell = length;
        let mut union_find = PathCompressionWeightedQuickUnion::new(length + 1);
        assert(n <= 0 || n <= n * n) by (nonlinear_arith);
        proof {
            let roots = union_find.roots();
            assert forall|x: usize| n <= x < length implies #[trigger] roots[x] == x by {
                assert(roots.contains_key(x));
            }
            assert forall|x: usize| n <= x < length implies #[trigger] alone(roots, x) by {
                assert forall|z: usize| roots.contains_key(z) && #[trigger] roots[z] == x implies z == x by {
                }
            }
        }
        let mut p: usize = 0;
        while p < side_size
            invariant
                p <= side_size,
                length == n * n,
                side_size == n,
                n <= 0 || n <= n * n,
                virtual_cell == length,
                union_find.wf(),
                forall|x: usize| union_find.roots().contains_key(x) <==> x <= length,
                forall|t: usize| t < p ==> #[trigger] union_find.roots()[t] == union_find.roots()[virtual_cell],
                forall|x: usize| n <= x < length ==> #[trigger] union_find.roots()[x] == x,
                forall|x: usize| n <= x < length ==> #[trigger] alone(union_find.roots(), x),
            decreases side_size - p,
        {
            let ghost roots = union_find.roots();
            union_find.union(p, virtual_cell);
            proof {
                let m = union_find.roots();
                let rp = roots[p];
                let rv = roots[virtual_cell];
                assert(roots.contains_key(p) && roots.contains_key(virtual_cell));
                assert forall|x: usize| n <= x < length implies #[trigger] m[x] == x by {
                    assert(roots[x] == x && alone(roots, x));
                    assert(rp != x && rv != x);
                }
                assert forall|x: usize| n <= x < length implies #[trigger] alone(m, x) by {
                    assert(roots[x] == x && alone(roots, x));
                    assert(rp != x && rv != x);
                    assert forall|z: usize| m.contains_key(z) && #[trigger] m[z] == x implies z == x by {
                        assert(roots[z] == x);
                    }
                }
                assert forall|t: usize| t < p + 1 implies #[trigger] m[t] == m[virtual_cell] by {
                    assert(roots.contains_key(t));
                    if t < p {
                        assert(roots[t] == roots[virtual_cell]);
                    }
                }
            }
            p = p + 1;
        }
        let base = PercolationBase::new(side_size);
        let r = UnionFindPercolation { union_find, virtual_cell, base };
        proof {
            let open = r.base.open_cells();
            assert forall|x: int, y: int| #[trigger] is_neighbor(n, x, y) && r.base.full_cells()[x] && open[y]
                implies #[trigger] r.base.full_cells()[y] by {
            }
            assert(uf_tracks(n, open, r.union_find.roots(), -1));
        }
        r
    }

    spec fn mid_open(&self, index: int) -> bool {
        let n = self.base.side() as int;
        &&& self.base.wf()
        &&& self.union_find.wf()
        &&& self.virtual_cell == n * n
        &&& 0 <= index < n * n
        &&& self.base.open_cells()[index]
        &&& uf_tracks(n, self.base.open_cells(), self.union_find.roots(), index)
    }

    /// Joins the set of `index` with that of its neighbour `other` when
    /// `other` is open, and tells whether it is.
    fn connect(&mut self, index: usize, other: usize) -> (r: bool)
        requires
            old(self).mid_open(index as int),
            is_neighbor(old(self).base.side() as int, index as int, other as int),
        ensures
            final(self).mid_open(index as int),
            final(self).base == old(self).base,
            final(self).virtual_cell == old(self).virtual_cell,
            coarser(old(self).union_find.roots(), final(self).union_find.roots()),
            r == old(self).base.open_cells()[other as int],
            r ==> final(self).union_find.roots()[index] == final(self).union_find.roots()[other],
    {
        let ghost n = self.base.side() as int;
        proof {
            lemma_neighbor_symmetric(n, index as int, other as int);
        }
        if self.base.is_open_by_index(other) {
            let ghost roots = self.union_find.roots();
            let ghost uf0 = self.union_find;
            proof {
                assert(roots.contains_key(index) && roots.contains_key(other));
            }
            self.union_find.union(index, other);
            proof {
                let rr = uf0.link_root(roots[index], roots[other]);
                lemma_union_tracks(n, self.base.open_cells(), roots, index as int, index, other, rr);
            }
            true
        } else {
            proof {
                assert forall|x: usize, y: usize| self.union_find.roots().contains_key(x) && self.union_find.roots().contains_key(y)
                    && #[trigger] self.union_find.roots()[x] == #[trigger] self.union_find.roots()[y]
                    implies self.union_find.roots()[x] == self.union_find.roots()[y] by {
                }
            }
            false
        }
    }
}

impl UnionFindPercolation {
    fn connect_with_top(&mut self, index: usize) -> (r: bool)
        requires
            old(self).mid_open(index as int),
        ensures
            final(self).mid_open(index as int),
            final(self).base == old(self).base,
            final(self).virtual_cell == old(self).virtual_cell,
            coarser(old(self).union_find.roots(), final(self).union_find.roots()),
            ({
                let n = old(self).base.side() as int;
                let y = index - n;
                &&& r == (index >= n && old(self).base.open_cells()[y])
                &&& r ==> final(self).union_find.roots()[index] == final(self).union_find.roots()[y as usize]
            }),
    {
        if self.base.has_top_neighbor(index) {
            let upper_index = index - self.base.side_size();
            self.connect(index, upper_index)
        } else {
            proof {
                assert(coarser(self.union_find.roots(), self.union_find.roots()));
            }
            false
        }
    }

    fn connect_with_left(&mut self, index: usize) -> (r: bool)
        requires
            old(self).mid_open(index as int),
        ensures
            final(self).mid_open(index as int),
            final(self).base == old(self).base,
            final(self).virtual_cell == old(self).virtual_cell,
            coarser(old(self).union_find.roots(), final(self).union_find.roots()),
            ({
                let n = old(self).base.side() as int;
                let y = index - 1;
                &&& r == (index as int % n > 0 && old(self).base.open_cells()[y])
                &&& r ==> final(self).union_find.roots()[index] == final(self).union_find.roots()[y as usize]
            }),
    {
        let ghost n = self.base.side() as int;
        assert(n > 0) by (nonlinear_arith)
            requires 0 <= index < n * n, n >= 0;
        if index == 0 {
            proof {
                lemma_small_mod(0, n as nat);
            }
        }
        if self.base.has_left_neighbor(index) {
            self.connect(index, index - 1)
        } else {
            proof {
                assert(coarser(self.union_find.roots(), self.union_find.roots()));
            }
            false
        }
    }

    fn connect_with_right(&mut self, index: usize) -> (r: bool)
        requires
            old(self).mid_open(index as int),
        ensures
            final(self).mid_open(index as int),
            final(self).base == old(self).base,
            final(self).virtual_cell == old(self).virtual_cell,
            coarser(old(self).union_find.roots(), final(self).union_find.roots()),
            ({
                let n = old(self).base.side() as int;
                let y = index + 1;
                &&& r == (index as int % n < n - 1 && old(self).base.open_cells()[y])
                &&& r ==> final(self).union_find.roots()[index] == final(self).union_find.roots()[y as usize]
            }),
    {
        let ghost n = self.base.side() as int;
        assert(n > 0) by (nonlinear_arith)
            requires 0 <= index < n * n, n >= 0;
        if self.base.has_right_neighbor(index) {
            proof {
                lemma_neighbor_symmetric(n, index as int, index + 1);
            }
            self.connect(index, index + 1)
        } else {
            proof {
                assert(coarser(self.union_find.roots(), self.union_find.roots()));
            }
            false
        }
    }

    fn connect_with_bottom(&mut self, index: usize) -> (r: bool)
        requires
            old(self).mid_open(index as int),
        ensures
            final(self).mid_open(index as int),
            final(self).base == old(self).base,
            final(self).virtual_cell == old(self).virtual_cell,
            coarser(old(self).union_find.roots(), final(self).union_find.roots()),
            ({
                let n = old(self).base.side() as int;
                let y = index + n;
                &&& r == (index < n * (n - 1) && old(self).base.open_cells()[y])
                &&& r ==> final(self).union_find.roots()[index] == final(self).union_find.roots()[y as usize]
            }),
    {
        let ghost n = self.base.side() as int;
        assert(n > 0) by (nonlinear_arith)
            requires 0 <= index < n * n, n >= 0;
        assert(n * (n - 1) + n == n * n) by (nonlinear_arith);
        if self.base.has_bottom_neighbor(index) {
            let bottom_index = index + self.base.side_size();
            self.connect(index, bottom_index)
        } else {
            proof {
                assert(coarser(self.union_find.roots(), self.union_find.roots()));
            }
            false
        }
    }
}

impl Percolation for UnionFindPercolation {
    closed spec fn wf(&self) -> bool {
        let n = self.base.side() as int;
        &&& self.base.wf()
        &&& fill_complete(n, self.base.open_cells(), self.base.full_cells())
        &&& self.union_find.wf()
        &&& self.virtual_cell == n * n
        &&& uf_tracks(n, self.base.open_cells(), self.union_find.roots(), -1)
    }

    closed spec fn side(&self) -> nat {
        self.base.side()
    }

    closed spec fn open_cells(&self) -> Seq<bool> {
        self.base.open_cells()
    }

    proof fn lemma_site_count(&self) {
    }

    fn open(&mut self, row: usize, col: usize) {
        let index = self.base.cell_index(row, col);
        if self.base.is_open_by_index(index) {
            assert(self.open_cells() =~= old(self).open_cells().update(index as int, true));
            return;
        }
        let ghost n = self.base.side() as int;
        let ghost open0 = self.base.open_cells();
        let ghost full0 = self.base.full_cells();
        let ghost i = index as int;
        proof {
            lemma_open_site(n, open0, full0, i);
            lemma_open_tracks(n, open0, self.union_find.roots(), i);
        }
        self.base.make_open(index);
        let ghost open2 = self.base.open_cells();
        let top = self.connect_with_top(index);
        let ghost after_top = self.union_find.roots();
        let left = self.connect_with_left(index);
        let ghost after_left = self.union_find.roots();
        let right = self.connect_with_right(index);
        let ghost after_right = self.union_find.roots();
        let bottom = self.connect_with_bottom(index);
        let union = top || left || right || bottom;
        proof {
            let rs = self.union_find.roots();
            let v = (n * n) as usize;
            assert(n > 0) by (nonlinear_arith)
                requires 0 <= i < n * n, n >= 0;
            if i == 0 {
                lemma_small_mod(0, n as nat);
            }
            assert(i >= n && open2[i - n] ==> rs[index] == rs[(i - n) as usize]) by {
                if i >= n && open2[i - n] {
                    assert(after_top.contains_key(index) && after_top.contains_key((i - n) as usize));
                    assert(after_left.contains_key(index) && after_left.contains_key((i - n) as usize));
                    assert(after_right.contains_key(index) && after_right.contains_key((i - n) as usize));
                }
            }
            assert(i % n > 0 && open2[i - 1] ==> rs[index] == rs[(i - 1) as usize]) by {
                if i % n > 0 && open2[i - 1] {
                    assert(after_left.contains_key(index) && after_left.contains_key((i - 1) as usize));
                    assert(after_right.contains_key(index) && after_right.contains_key((i - 1) as usize));
                }
            }
            assert(i % n < n - 1 && open2[i + 1] ==> rs[index] == rs[(i + 1) as usize]) by {
                if i % n < n - 1 && open2[i + 1] {
                    lemma_neighbor_symmetric(n, i, i + 1);
                    assert(after_right.contains_key(index) && after_right.contains_key((i + 1) as usize));
                }
            }
            assert forall|x: int, y: int| #[trigger] is_neighbor(n, x, y) && open2[x] && open2[y]
                implies rs[x as usize] == rs[y as usize] by {
                lemma_neighbor_symmetric(n, x, y);
                if x != i && y != i {
                } else if x == i {
                } else {
                    assert(is_neighbor(n, i, x));
                }
            }
            assert(uf_tracks(n, open2, rs, -1));
        }
        let ghost joins = i < n || exists|w: int| #[trigger] is_neighbor(n, i, w) && full0[w];
        let ghost reach = reachable(n, open2, i);
        assert((index as int) < n <==> row == 1) by (nonlinear_arith)
            requires index == (row - 1) * n + (col - 1), 1 <= row, 1 <= col <= n;
        if (union || row == 1) && self.union_find.connected(index, self.virtual_cell) {
            proof {
                assert(reach);
                if !joins {
                    lemma_full_iff_reachable(n, open2, full0, i);
                }
            }
            self.base.make_full(index);
            self.base.fill_neighbors(index);
        } else {
            proof {
                if reach {
                    lemma_reachable_joined(n, open2, self.union_find.roots(), i);
                    if !(union || row == 1) {
                        if joins {
                            let w = choose|w: int| #[trigger] is_neighbor(n, i, w) && full0[w];
                            lemma_neighbor_symmetric(n, i, w);
                            assert(open0[w]);
                            assert(open2[w]);
                        }
                        lemma_full_iff_reachable(n, open2, full0, i);
                    }
                }
                if joins {
                    assert(reach);
                }
            }
        }
    }

    fn is_open(&self, row: usize, col: usize) -> (r: bool) {
        let index = self.base.cell_index(row, col);
        self.base.is_open_by_index(index)
    }

    fn is_full(&self, row: usize, col: usize) -> (r: bool) {
        let index = self.base.cell_index(row, col);
        proof {
            lemma_full_iff_reachable(self.base.side() as int, self.base.open_cells(), self.base.full_cells(), index as int);
        }
        self.base.is_full_by_index(index)
    }

    fn percolates(&self) -> (r: bool) {
        let side = self.base.side_size();
        assert(side < usize::MAX) by (nonlinear_arith)
            requires side * side <= usize::MAX;
        let mut col: usize = 1;
        while col <= side
            invariant
                self.wf(),
                side == self.side(),
                side < usize::MAX,
                1 <= col <= side + 1,
                forall|c: int| 0 <= c < col - 1 ==> !#[trigger] reachable(side as int, self.open_cells(), (side - 1) * side + c),
            decreases side + 1 - col,
        {
            if self.is_full(side, col) {
                return true;
            }
            col = col + 1;
        }
        false
    }
}

/// `r` is a power of two.
pub open spec fn is_power_of_two(r: usize) -> bool {
    r > 0 && r & vstd::prelude::sub(r, 1) == 0
}

/// The least power of two that is at least `v`, for `v` from 1 to 2^32 (above
/// 2^31 the answer is 2^32, so there `usize` must be wider than 32 bits).
pub fn round_up_to_next_highest_power_of_two(v: usize) -> (r: usize)
    requires
        1 <= v <= 0x1_0000_0000,
        v <= 0x8000_0000 || usize::MAX > 0xffff_ffff,
    ensures
        is_power_of_two(r),
        v <= r,
        r < 2 * v,
{
    let mut w: usize = v - 1;
    w = w | (w >> 1);
    w = w | (w >> 2);
    w = w | (w >> 4);
    w = w | (w >> 8);
    w = w | (w >> 16);
    proof {
        if v <= 0x8000_0000 {
            assert(w < 0x8000_0000 && vstd::prelude::add(w, 1usize) >= v && vstd::prelude::add(w, 1usize) < 2 * v
                && vstd::prelude::add(w, 1usize) & w == 0) by (bit_vector)
                requires
                    1 <= v <= 0x8000_0000,
                w == ({
                    let a = vstd::prelude::sub(v, 1usize);
                    let b = a | (a >> 1usize);
                    let c = b | (b >> 2usize);
                    let d = c | (c >> 4usize);
                    let e = d | (d >> 8usize);
                    e | (e >> 16usize)
                }),
            ;
        } else {
            assert(w == 0xffff_ffff) by (bit_vector)
                requires
                    0x8000_0000usize <= vstd::prelude::sub(v, 1usize),
                    vstd::prelude::sub(v, 1usize) <= 0xffff_ffffusize,
                w == ({
                    let a = vstd::prelude::sub(v, 1usize);
                    let b = a | (a >> 1usize);
                    let c = b | (b >> 2usize);
                    let d = c | (c >> 4usize);
                    let e = d | (d >> 8usize);
                    e | (e >> 16usize)
                }),
            ;
            assert(vstd::prelude::add(w, 1usize) & w == 0) by (bit_vector)
                requires
                    w == 0xffff_ffffusize,
            ;
        }
    }
    let r = w + 1;
    assert(r & vstd::prelude::sub(r, 1usize) == 0);
    r
}

/// Opens the sites of column `col` from row 1 down to row `row`.
pub fn open_column_till_row<P: Percolation>(percolation: &mut P, row: usize, col: usize)
    requires
        old(percolation).wf(),
        row <= old(percolation).side(),
        1 <= col <= old(percolation).side(),
    ensures
        final(percolation).wf(),
        final(percolation).side() == old(percolation).side(),
        final(percolation).open_cells().len() == old(percolation).open_cells().len(),
        forall|i: int| 0 <= i < old(percolation).open_cells().len() ==> #[trigger] final(percolation).open_cells()[i]
            == (old(percolation).open_cells()[i] || exists|r: int| 1 <= r <= row && i == site(old(percolation).side(), r, col as int)),
{
    let ghost n = percolation.side();
    let ghost open0 = percolation.open_cells();
    let mut k: usize = 0;
    while k < row
        invariant
            k <= row,
            row <= n,
            1 <= col <= n,
            percolation.wf(),
            percolation.side() == n,
            percolation.open_cells().len() == open0.len(),
            forall|i: int| 0 <= i < open0.len() ==> #[trigger] percolation.open_cells()[i]
                == (open0[i] || exists|q: int| 1 <= q <= k && i == site(n, q, col as int)),
        decreases row - k,
    {
        let ghost before = percolation.open_cells();
        proof {
            percolation.lemma_site_count();
        }
        percolation.open(k + 1, col);
        proof {
            let j = site(n, k + 1, col as int);
            assert(0 <= j < n * n) by (nonlinear_arith)
                requires j == k * n + (col - 1), 0 <= k < n, 1 <= col <= n;
            assert(percolation.open_cells() == before.update(j, true));
            assert forall|i: int| 0 <= i < open0.len() implies #[trigger] percolation.open_cells()[i]
                == (open0[i] || exists|q: int| 1 <= q <= k + 1 && i == site(n, q, col as int)) by {
                if i == j {
                    assert(1 <= k + 1 <= k + 1);
                } else {
                    assert(before.update(j, true)[i] == before[i]);
                    if exists|q: int| 1 <= q <= k + 1 && i == site(n, q, col as int) {
                        let q = choose|q: int| 1 <= q <= k + 1 && i == site(n, q, col as int);
                        assert(q != k + 1);
                    }
                }
            }
        }
        k = k + 1;
    }
}

} // verus!
