//! Percolation over bit-packed site identifiers: the row of a site sits in the
//! high bits and its column in the low bits, so neighbours are found by shifts
//! and masks.
use vstd::prelude::*;
use vstd::arithmetic::div_mod::{
    lemma_div_pos_is_pos, lemma_fundamental_div_mod, lemma_fundamental_div_mod_converse, lemma_mod_pos_bound,
};
use vstd::arithmetic::power2::{lemma_pow2_pos, pow2};
use vstd::bits::{
    lemma_usize_low_bits_mask_is_mod, lemma_usize_pow2_no_overflow, lemma_usize_shl_is_mul, lemma_usize_shr_is_div,
    low_bits_mask,
};
use crate::fnv_map::{FnvMap, fnv_map_get, fnv_map_insert, fnv_map_with_capacity};
use crate::generator::{digit_base_value, DigitBaseGenerator, Generator};
use crate::percolation::{
    count_unfilled, fill_complete, fill_pending, fill_progress, is_neighbor, lemma_fill_progress, lemma_fill_progress_start,
    alone, coarser, lemma_full_iff_reachable, lemma_neighbor_symmetric, lemma_reachable_step, lemma_open_site, lemma_open_tracks, lemma_reachable_joined,
    is_power_of_two, lemma_union_tracks, percolates_spec, reachable, round_up_to_next_highest_power_of_two, site,
    uf_tracks, Percolation,
};
use vstd::arithmetic::div_mod::lemma_small_mod;
use crate::union_find::{merge_roots, PathCompressionWeightedQuickUnion, UnionFind};

verus! {

/// The packed identifier of site `s` on a grid of side `n`, with rows `p` apart.
pub open spec fn pack(n: int, p: int, s: int) -> int {
    digit_base_value(p as nat, n as nat, s as nat)
}

/// The site of packed identifier `id`.
pub open spec fn unpack(n: int, p: int, id: int) -> int {
    (id / p) * n + id % p
}

/// Packing splits a site into its row (high part) and column (low part), and
/// unpacking undoes it.
pub proof fn lemma_pack(n: int, p: int, s: int)
    requires
        0 < n <= p,
        0 <= s,
    ensures
        pack(n, p, s) / p == s / n,
        pack(n, p, s) % p == s % n,
        unpack(n, p, pack(n, p, s)) == s,
        0 <= pack(n, p, s),
{
    lemma_fundamental_div_mod(s, n);
    lemma_mod_pos_bound(s, n);
    lemma_div_pos_is_pos(s, n);
    let q = s / n;
    let r = s % n;
    assert(pack(n, p, s) == q * p + r);
    assert(q * p >= 0) by (nonlinear_arith)
        requires q >= 0, p > 0;
    lemma_fundamental_div_mod_converse(pack(n, p, s), p, q, r);
    assert(s == q * n + r) by (nonlinear_arith)
        requires s == n * q + r;
}

/// The packed neighbours of a site are one row (`p`) or one column (1) away.
pub proof fn lemma_pack_neighbors(n: int, p: int, s: int)
    requires
        0 < n <= p,
        0 <= s,
    ensures
        s >= n ==> pack(n, p, s - n) == pack(n, p, s) - p,
        pack(n, p, s + n) == pack(n, p, s) + p,
        s % n > 0 ==> pack(n, p, s - 1) == pack(n, p, s) - 1,
        s % n < n - 1 ==> pack(n, p, s + 1) == pack(n, p, s) + 1,
{
    lemma_fundamental_div_mod(s, n);
    lemma_mod_pos_bound(s, n);
    lemma_div_pos_is_pos(s, n);
    let q = s / n;
    let r = s % n;
    assert(s == q * n + r) by (nonlinear_arith)
        requires s == n * q + r;
    assert((q + 1) * n + r == s + n) by (nonlinear_arith)
        requires s == q * n + r;
    lemma_fundamental_div_mod_converse(s + n, n, q + 1, r);
    assert((q + 1) * p == q * p + p) by (nonlinear_arith);
    if s >= n {
        assert(q >= 1) by (nonlinear_arith)
            requires s == q * n + r, r < n, s >= n, n > 0;
        assert((q - 1) * n + r == s - n) by (nonlinear_arith)
            requires s == q * n + r;
        lemma_fundamental_div_mod_converse(s - n, n, q - 1, r);
        assert((q - 1) * p == q * p - p) by (nonlinear_arith);
    }
    if r > 0 {
        lemma_fundamental_div_mod_converse(s - 1, n, q, r - 1);
    }
    if r < n - 1 {
        lemma_fundamental_div_mod_converse(s + 1, n, q, r + 1);
    }
}

/// A site of the top row is its own packed identifier.
pub proof fn lemma_pack_top(n: int, p: int, t: int)
    requires
        0 < n <= p,
        0 <= t < n,
    ensures
        pack(n, p, t) == t,
{
    lemma_fundamental_div_mod_converse(t, n, 0, t);
}

/// Distinct sites have distinct identifiers, all at most `n * p` for sites up
/// to `n * n`.
pub proof fn lemma_pack_bound(n: int, p: int, s: int)
    requires
        0 < n <= p,
        0 <= s <= n * n,
    ensures
        pack(n, p, s) <= n * p,
        s < n * n ==> pack(n, p, s) < n * p,
        s == n * n ==> pack(n, p, s) == n * p,
{
    lemma_fundamental_div_mod(s, n);
    lemma_mod_pos_bound(s, n);
    lemma_div_pos_is_pos(s, n);
    let q = s / n;
    let r = s % n;
    assert(s == q * n + r) by (nonlinear_arith)
        requires s == n * q + r;
    if s < n * n {
        assert(q <= n - 1) by (nonlinear_arith)
            requires s == q * n + r, s < n * n, 0 <= r, n > 0;
        assert(q * p <= (n - 1) * p) by (nonlinear_arith)
            requires q <= n - 1, p > 0;
        assert((n - 1) * p + n - 1 < n * p) by (nonlinear_arith)
            requires n <= p;
    } else {
        lemma_fundamental_div_mod_converse(s, n, n, 0);
    }
}

/// `x` is the packed identifier of site `unpack(x)`, a site or the virtual
/// site `n * n`.
pub open spec fn is_packed(n: int, p: int, x: int) -> bool {
    0 <= unpack(n, p, x) <= n * n && x == pack(n, p, unpack(n, p, x))
}

/// The union-find `roots`, keyed by packed identifiers, read per site.
pub open spec fn dense_roots(n: int, p: int, roots: Map<usize, usize>) -> Map<usize, usize> {
    Map::new(|s: usize| s <= n * n, |s: usize| unpack(n, p, roots[pack(n, p, s as int) as usize] as int) as usize)
}

/// The keys of `roots` are exactly the packed identifiers, and every root is a key.
pub open spec fn packed_keys(n: int, p: int, roots: Map<usize, usize>) -> bool {
    &&& forall|x: usize| #[trigger] roots.contains_key(x) <==> is_packed(n, p, x as int)
    &&& forall|x: usize| roots.contains_key(x) ==> roots.contains_key(#[trigger] roots[x])
}

/// Merging two sets in packed keys is merging them per site.
#[verifier::rlimit(60)]
#[verifier::spinoff_prover]
proof fn lemma_dense_merge(n: int, p: int, roots: Map<usize, usize>, a: usize, b: usize, r: usize)
    requires
        0 < n <= p,
        n * p < usize::MAX,
        packed_keys(n, p, roots),
        a <= n * n,
        b <= n * n,
        r == roots[pack(n, p, a as int) as usize] || r == roots[pack(n, p, b as int) as usize],
    ensures
        ({
            let ra = roots[pack(n, p, a as int) as usize];
            let rb = roots[pack(n, p, b as int) as usize];
            let d = dense_roots(n, p, roots);
            dense_roots(n, p, merge_roots(roots, ra, rb, r)) == merge_roots(d, d[a], d[b], unpack(n, p, r as int) as usize)
        }),
{
    let pa = pack(n, p, a as int) as usize;
    let pb = pack(n, p, b as int) as usize;
    let ra = roots[pa];
    let rb = roots[pb];
    let d = dense_roots(n, p, roots);
    let m = merge_roots(roots, ra, rb, r);
    lemma_pack(n, p, a as int);
    lemma_pack(n, p, b as int);
    lemma_pack_bound(n, p, a as int);
    lemma_pack_bound(n, p, b as int);
    assert(roots.contains_key(pa) && roots.contains_key(pb));
    assert(roots.contains_key(ra) && roots.contains_key(rb));
    assert forall|s: usize| s <= n * n implies #[trigger] dense_roots(n, p, m)[s] == merge_roots(d, d[a], d[b], unpack(n, p, r as int) as usize)[s] by {
        let ps = pack(n, p, s as int) as usize;
        lemma_pack(n, p, s as int);
        lemma_pack_bound(n, p, s as int);
        assert(roots.contains_key(ps));
        let x = roots[ps];
        assert(roots.contains_key(x));
        // packed identifiers are told apart by their sites
        assert(x == ra <==> unpack(n, p, x as int) == unpack(n, p, ra as int));
        assert(x == rb <==> unpack(n, p, x as int) == unpack(n, p, rb as int));
        lemma_unpack_range(n, p, x as int);
        lemma_unpack_range(n, p, ps as int);
        lemma_unpack_range(n, p, ra as int);
        lemma_unpack_range(n, p, rb as int);
        lemma_unpack_range(n, p, r as int);
    }
    assert(dense_roots(n, p, m) =~= merge_roots(d, d[a], d[b], unpack(n, p, r as int) as usize));
}

/// A union of two neighbouring open sites, made on packed keys, keeps
/// `uf_tracks` on the sites.
#[verifier::rlimit(60)]
#[verifier::spinoff_prover]
proof fn lemma_packed_union(
    n: int,
    p: int,
    open: Seq<bool>,
    roots: Map<usize, usize>,
    m: Map<usize, usize>,
    si: int,
    so: int,
    link: usize,
)
    requires
        0 < n <= p,
        n * p < usize::MAX,
        open.len() == n * n,
        packed_keys(n, p, roots),
        uf_tracks(n, open, dense_roots(n, p, roots), si),
        is_neighbor(n, si, so),
        0 <= so < n * n,
        open[si],
        open[so],
        link == roots[pack(n, p, si) as usize] || link == roots[pack(n, p, so) as usize],
        m == merge_roots(roots, roots[pack(n, p, si) as usize], roots[pack(n, p, so) as usize], link),
        forall|x: usize| m.contains_key(x) ==> m.contains_key(#[trigger] m[x]),
    ensures
        packed_keys(n, p, m),
        uf_tracks(n, open, dense_roots(n, p, m), si),
        coarser(dense_roots(n, p, roots), dense_roots(n, p, m)),
        dense_roots(n, p, m)[si as usize] == dense_roots(n, p, m)[so as usize],
{
    lemma_dense_merge(n, p, roots, si as usize, so as usize, link);
    let d = dense_roots(n, p, roots);
    lemma_pack(n, p, si);
    lemma_pack(n, p, so);
    lemma_pack_bound(n, p, si);
    lemma_pack_bound(n, p, so);
    assert(roots.contains_key(pack(n, p, si) as usize) && roots.contains_key(pack(n, p, so) as usize));
    assert(roots.contains_key(link));
    lemma_unpack_range(n, p, link as int);
    assert(d[si as usize] == unpack(n, p, roots[pack(n, p, si) as usize] as int) as usize);
    assert(d[so as usize] == unpack(n, p, roots[pack(n, p, so) as usize] as int) as usize);
    lemma_union_tracks(n, open, d, si, si as usize, so as usize, unpack(n, p, link as int) as usize);
    assert forall|x: usize| #[trigger] m.contains_key(x) <==> is_packed(n, p, x as int) by {
    }
}

/// The site of a packed identifier fits a `usize`.
proof fn lemma_unpack_range(n: int, p: int, x: int)
    requires
        0 < n <= p,
        n * p < usize::MAX,
        is_packed(n, p, x),
    ensures
        0 <= unpack(n, p, x) <= n * n,
        unpack(n, p, x) as usize as int == unpack(n, p, x),
{
    assert(n * n <= n * p) by (nonlinear_arith)
        requires 0 < n <= p;
}

/// Percolation whose sites are keyed by packed identifiers in hash maps: site
/// (row, col) is `((row - 1) << lg_2) + col - 1`, with `2^lg_2` the least power
/// of two not below the side; the union-find runs over the same identifiers.
pub struct HackUnionFindPercolation {
    union_find: PathCompressionWeightedQuickUnion,
    virtual_cell: usize,
    openness: FnvMap<bool>,
    fullness: FnvMap<bool>,
    side_size: usize,
    lg_2: usize,
    mask: usize,
}

impl HackUnionFindPercolation {
    closed spec fn n(&self) -> int {
        self.side_size as int
    }

    /// The distance between rows in packed identifiers.
    closed spec fn p(&self) -> int {
        self.mask + 1
    }

    closed spec fn full_cells(&self) -> Seq<bool> {
        Seq::new((self.n() * self.n()) as nat, |s: int| self.fullness@[pack(self.n(), self.p(), s) as usize])
    }

    closed spec fn grid_wf(&self) -> bool {
        let n = self.n();
        let p = self.p();
        &&& 0 < n <= p
        &&& n * p < usize::MAX
        &&& self.lg_2 < 32
        &&& p == pow2(self.lg_2 as nat)
        &&& self.mask as nat == low_bits_mask(self.lg_2 as nat)
        &&& forall|s: int| 0 <= s < n * n ==> #[trigger] self.openness@.contains_key(pack(n, p, s) as usize)
        &&& forall|s: int| 0 <= s < n * n ==> #[trigger] self.fullness@.contains_key(pack(n, p, s) as usize)
        &&& forall|k: usize| #[trigger] self.openness@.contains_key(k) ==> is_packed(n, p, k as int) && unpack(n, p, k as int) < n * n
        &&& forall|k: usize| #[trigger] self.fullness@.contains_key(k) ==> is_packed(n, p, k as int) && unpack(n, p, k as int) < n * n
    }

    /// `index` is the packed identifier of a site of the grid.
    closed spec fn valid(&self, index: usize) -> bool {
        &&& is_packed(self.n(), self.p(), index as int)
        &&& unpack(self.n(), self.p(), index as int) < self.n() * self.n()
    }

    closed spec fn site_of(&self, index: usize) -> int {
        unpack(self.n(), self.p(), index as int)
    }

    proof fn lemma_valid(&self, s: int)
        requires
            self.grid_wf(),
            0 <= s < self.n() * self.n(),
        ensures
            self.valid(pack(self.n(), self.p(), s) as usize),
            self.site_of(pack(self.n(), self.p(), s) as usize) == s,
            pack(self.n(), self.p(), s) < self.n() * self.p(),
    {
        lemma_pack(self.n(), self.p(), s);
        lemma_pack_bound(self.n(), self.p(), s);
    }

    proof fn lemma_index(&self, index: usize)
        requires
            self.grid_wf(),
            self.valid(index),
        ensures
            index as int == pack(self.n(), self.p(), self.site_of(index)),
            0 <= self.site_of(index) < self.n() * self.n(),
            index as int / self.p() == self.site_of(index) / self.n(),
            index as int % self.p() == self.site_of(index) % self.n(),
            index < self.n() * self.p(),
            self.openness@.contains_key(index),
            self.fullness@.contains_key(index),
    {
        lemma_pack(self.n(), self.p(), self.site_of(index));
        lemma_pack_bound(self.n(), self.p(), self.site_of(index));
        assert(self.openness@.contains_key(pack(self.n(), self.p(), self.site_of(index)) as usize));
        assert(self.fullness@.contains_key(pack(self.n(), self.p(), self.site_of(index)) as usize));
    }

    /// Facts on the bit operations over `index`: the mask keeps the column and
    /// the shift keeps the row.
    proof fn lemma_bits(&self, index: usize)
        requires
            self.grid_wf(),
            self.valid(index),
        ensures
            index & self.mask == self.site_of(index) % self.n(),
            index >> self.lg_2 == self.site_of(index) / self.n(),
            (1usize << self.lg_2) == self.p(),
            index as int == (index >> self.lg_2) * self.p() + (index & self.mask),
    {
        self.lemma_index(index);
        lemma_usize_low_bits_mask_is_mod(index, self.lg_2 as nat);
        lemma_usize_shr_is_div(index, self.lg_2);
        assert(self.p() <= self.n() * self.p()) by (nonlinear_arith)
            requires self.n() >= 1, self.p() > 0;
        lemma_usize_shl_is_mul(1, self.lg_2);
        assert((low_bits_mask(self.lg_2 as nat) as usize) == self.mask);
        assert((pow2(self.lg_2 as nat) as usize) as int == self.p());
        lemma_fundamental_div_mod(index as int, self.p());
        assert(index as int == (index as int / self.p()) * self.p() + index as int % self.p()) by (nonlinear_arith)
            requires index as int == self.p() * (index as int / self.p()) + index as int % self.p();
    }

    fn cell_index(&self, row: usize, col: usize) -> (r: usize)
        requires
            self.grid_wf(),
            1 <= row <= self.n(),
            1 <= col <= self.n(),
        ensures
            self.valid(r),
            self.site_of(r) == site(self.n() as nat, row as int, col as int),
    {
        let ghost n = self.n();
        let ghost p = self.p();
        let ghost s = site(n as nat, row as int, col as int);
        proof {
            assert(0 <= s < n * n && (row - 1) * p < n * p) by (nonlinear_arith)
                requires s == (row - 1) * n + (col - 1), 1 <= row <= n, 1 <= col <= n, p > 0;
            lemma_usize_shl_is_mul((row - 1) as usize, self.lg_2);
            lemma_fundamental_div_mod_converse(s, n, row - 1, col - 1);
            self.lemma_valid(s);
        }
        ((row - 1) << self.lg_2) + col - 1
    }

    fn is_open_by_index(&self, index: usize) -> (r: bool)
        requires
            self.grid_wf(),
            self.valid(index),
        ensures
            r == self.open_cells()[self.site_of(index)],
    {
        proof {
            self.lemma_index(index);
        }
        fnv_map_get(&self.openness, index)
    }

    fn is_full_by_index(&self, index: usize) -> (r: bool)
        requires
            self.grid_wf(),
            self.valid(index),
        ensures
            r == self.full_cells()[self.site_of(index)],
    {
        proof {
            self.lemma_index(index);
        }
        fnv_map_get(&self.fullness, index)
    }

    fn has_top_neighbor(&self, index: usize) -> (r: bool)
        requires
            self.grid_wf(),
            self.valid(index),
        ensures
            r == (self.site_of(index) >= self.n()),
    {
        proof {
            self.lemma_bits(index);
            let sv = self.site_of(index);
            let n = self.n();
            let p = self.p();
            let q = sv / n;
            let c = sv % n;
            lemma_fundamental_div_mod(sv, n);
            lemma_mod_pos_bound(sv, n);
            lemma_div_pos_is_pos(sv, n);
            assert(sv >= n <==> q >= 1) by (nonlinear_arith)
                requires sv == n * q + c, 0 <= c < n, q >= 0;
            assert(index >= n <==> q >= 1) by (nonlinear_arith)
                requires index == q * p + c, 0 <= c < n, q >= 0, n <= p;
        }
        index >= self.side_size
    }

    fn has_left_neighbor(&self, index: usize) -> (r: bool)
        requires
            self.grid_wf(),
            self.valid(index),
        ensures
            r == (self.site_of(index) % self.n() > 0),
    {
        proof {
            self.lemma_bits(index);
        }
        index & self.mask > 0
    }

    fn has_right_neighbor(&self, index: usize) -> (r: bool)
        requires
            self.grid_wf(),
            self.valid(index),
        ensures
            r == (self.site_of(index) % self.n() < self.n() - 1),
    {
        proof {
            self.lemma_bits(index);
        }
        index & self.mask < self.side_size - 1
    }

    fn has_bottom_neighbor(&self, index: usize) -> (r: bool)
        requires
            self.grid_wf(),
            self.valid(index),
        ensures
            r == (self.site_of(index) < self.n() * (self.n() - 1)),
    {
        proof {
            self.lemma_bits(index);
            let s = self.site_of(index);
            let n = self.n();
            lemma_fundamental_div_mod(s, n);
            lemma_mod_pos_bound(s, n);
            assert(s / n <= n - 1 && (s / n == n - 1 <==> s >= n * (n - 1))) by (nonlinear_arith)
                requires s == n * (s / n) + s % n, 0 <= s % n < n, 0 <= s < n * n, n > 0;
        }
        index >> self.lg_2 != self.side_size - 1
    }

    /// The packed identifier one row up.
    fn upper_index(&self, index: usize) -> (r: usize)
        requires
            self.grid_wf(),
            self.valid(index),
            self.site_of(index) >= self.n(),
        ensures
            self.valid(r),
            self.site_of(r) == self.site_of(index) - self.n(),
    {
        let ghost n = self.n();
        let ghost p = self.p();
        let ghost sv = self.site_of(index);
        proof {
            self.lemma_bits(index);
            self.lemma_index(index);
            lemma_pack_neighbors(n, p, sv);
            self.lemma_valid(sv - n);
            lemma_fundamental_div_mod(sv, n);
            lemma_mod_pos_bound(sv, n);
            assert(sv / n >= 1) by (nonlinear_arith)
                requires sv == n * (sv / n) + sv % n, sv % n < n, sv >= n;
        }
        let diff = index & self.mask;
        let q = index >> self.lg_2;
        proof {
            assert((q - 1) * p < n * p) by (nonlinear_arith)
                requires index == q * p + diff, index < n * p, p > 0, q >= 1, diff >= 0;
            lemma_usize_shl_is_mul((q - 1) as usize, self.lg_2);
        }
        let a = q - 1;
        let r = (a << self.lg_2) | diff;
        proof {
            let lg = self.lg_2;
            assert((a << lg) | diff == vstd::prelude::add(a << lg, diff)) by (bit_vector)
                requires lg < 32, diff < (1usize << lg);
            assert((a << lg) == a * p);
            assert(a * p + diff == pack(n, p, sv) - p) by (nonlinear_arith)
                requires a == q - 1, pack(n, p, sv) == q * p + diff;
        }
        r
    }

    /// The packed identifier one row down.
    fn lower_index(&self, index: usize) -> (r: usize)
        requires
            self.grid_wf(),
            self.valid(index),
            self.site_of(index) < self.n() * (self.n() - 1),
        ensures
            self.valid(r),
            self.site_of(r) == self.site_of(index) + self.n(),
    {
        let ghost n = self.n();
        let ghost p = self.p();
        let ghost sv = self.site_of(index);
        proof {
            self.lemma_bits(index);
            self.lemma_index(index);
            lemma_pack_neighbors(n, p, sv);
            assert(n * (n - 1) + n == n * n) by (nonlinear_arith);
            self.lemma_valid(sv + n);
        }
        let diff = index & self.mask;
        let q = index >> self.lg_2;
        proof {
            assert((q + 1) * p == q * p + p) by (nonlinear_arith);
            assert((q + 1) * p < n * p) by (nonlinear_arith)
                requires (q + 1) * p + diff == pack(n, p, sv + n), pack(n, p, sv + n) < n * p, diff >= 0, p > 0;
            lemma_usize_shl_is_mul((q + 1) as usize, self.lg_2);
        }
        let a = q + 1;
        let r = (a << self.lg_2) | diff;
        proof {
            let lg = self.lg_2;
            assert((a << lg) | diff == vstd::prelude::add(a << lg, diff)) by (bit_vector)
                requires lg < 32, diff < (1usize << lg);
            assert((a << lg) == a * p);
        }
        r
    }
}


/// The sites of a sequence of packed identifiers.
pub open spec fn sites(n: int, p: int, st: Seq<usize>) -> Seq<usize> {
    st.map_values(|i: usize| unpack(n, p, i as int) as usize)
}

impl HackUnionFindPercolation {
    /// Nothing but the fullness of sites changes.
    closed spec fn same_but_fullness(&self, other: &Self) -> bool {
        &&& self.union_find == other.union_find
        &&& self.virtual_cell == other.virtual_cell
        &&& self.openness == other.openness
        &&& self.side_size == other.side_size
        &&& self.lg_2 == other.lg_2
        &&& self.mask == other.mask
    }

    fn make_full(&mut self, index: usize)
        requires
            old(self).grid_wf(),
            old(self).valid(index),
        ensures
            final(self).grid_wf(),
            final(self).same_but_fullness(old(self)),
            final(self).full_cells() == old(self).full_cells().update(old(self).site_of(index), true),
    {
        proof {
            self.lemma_index(index);
        }
        fnv_map_insert(&mut self.fullness, index, true);
        proof {
            let n = self.n();
            let p = self.p();
            assert forall|t: int| 0 <= t < n * n implies #[trigger] self.fullness@.contains_key(pack(n, p, t) as usize) by {
                assert(old(self).fullness@.contains_key(pack(n, p, t) as usize));
            }
            assert forall|k: usize| #[trigger] self.fullness@.contains_key(k) implies is_packed(n, p, k as int) && unpack(n, p, k as int) < n * n by {
                if k != index {
                    assert(old(self).fullness@.contains_key(k));
                }
            }
            assert forall|t: int| 0 <= t < n * n implies #[trigger] self.full_cells()[t]
                == old(self).full_cells().update(old(self).site_of(index), true)[t] by {
                lemma_pack(n, p, t);
                lemma_pack_bound(n, p, t);
                lemma_pack(n, p, self.site_of(index));
            }
            assert(self.full_cells() =~= old(self).full_cells().update(old(self).site_of(index), true));
        }
    }

    /// Marks `y`, a neighbour of the full site `x`, full and schedules it,
    /// when it is open and not yet full.
    fn spread(&mut self, x: usize, y: usize, stack: &mut Vec<usize>)
        requires
            old(self).grid_wf(),
            old(self).valid(x),
            old(self).valid(y),
            is_neighbor(old(self).n(), old(self).site_of(x), old(self).site_of(y)),
            old(self).full_cells()[old(self).site_of(x)],
            forall|z: int| 0 <= z < old(self).n() * old(self).n() && #[trigger] old(self).full_cells()[z]
                ==> old(self).open_cells()[z] && reachable(old(self).n(), old(self).open_cells(), z),
        ensures
            final(self).grid_wf(),
            final(self).same_but_fullness(old(self)),
            ({
                let n = old(self).n();
                let open = old(self).open_cells();
                let sy = old(self).site_of(y);
                if open[sy] && !old(self).full_cells()[sy] {
                    &&& final(self).full_cells() == old(self).full_cells().update(sy, true)
                    &&& final(stack)@ == old(stack)@.push(y)
                    &&& reachable(n, open, sy)
                } else {
                    &&& final(self).full_cells() == old(self).full_cells()
                    &&& final(stack)@ == old(stack)@
                }
            }),
    {
        proof {
            lemma_neighbor_symmetric(self.n(), self.site_of(x), self.site_of(y));
        }
        if self.is_open_by_index(y) && !self.is_full_by_index(y) {
            proof {
                lemma_reachable_step(self.n(), self.open_cells(), self.site_of(x), self.site_of(y));
            }
            self.make_full(y);
            stack.push(y);
        }
    }

    /// Follows one call of `spread` in the bookkeeping of `fill_progress`.
    proof fn lemma_spread_progress(
        &self,
        full0: Seq<bool>,
        popped: Seq<usize>,
        f1: Seq<bool>,
        s1: Seq<usize>,
        f2: Seq<bool>,
        s2: Seq<usize>,
        y: usize,
    )
        requires
            self.grid_wf(),
            self.valid(y),
            fill_progress(full0, sites(self.n(), self.p(), popped), f1, sites(self.n(), self.p(), s1)),
            f1.len() == self.n() * self.n(),
            (!f1[self.site_of(y)] && f2 == f1.update(self.site_of(y), true) && s2 == s1.push(y)) || (f2 == f1 && s2 == s1),
        ensures
            fill_progress(full0, sites(self.n(), self.p(), popped), f2, sites(self.n(), self.p(), s2)),
    {
        let n = self.n();
        let p = self.p();
        self.lemma_index(y);
        lemma_unpack_range(n, p, y as int);
        if s2 != s1 {
            assert(sites(n, p, s2) =~= sites(n, p, s1).push(self.site_of(y) as usize));
        }
        lemma_fill_progress(full0, sites(n, p, popped), f1, sites(n, p, s1), f2, sites(n, p, s2), self.site_of(y) as usize);
    }
}

impl HackUnionFindPercolation {
    /// Spreads fullness from the full site `x` to each of its open neighbours.
    #[verifier::rlimit(40)]
    fn spread_all(&mut self, x: usize, stack: &mut Vec<usize>)
        requires
            old(self).grid_wf(),
            old(self).valid(x),
            old(self).full_cells()[old(self).site_of(x)],
            forall|z: int| 0 <= z < old(self).n() * old(self).n() && #[trigger] old(self).full_cells()[z]
                ==> old(self).open_cells()[z] && reachable(old(self).n(), old(self).open_cells(), z),
        ensures
            final(self).grid_wf(),
            final(self).same_but_fullness(old(self)),
            fill_progress(
                old(self).full_cells(),
                sites(old(self).n(), old(self).p(), old(stack)@),
                final(self).full_cells(),
                sites(old(self).n(), old(self).p(), final(stack)@),
            ),
            forall|y: int| #[trigger] is_neighbor(old(self).n(), old(self).site_of(x), y) && old(self).open_cells()[y]
                ==> final(self).full_cells()[y],
            forall|z: int| 0 <= z < old(self).n() * old(self).n() && #[trigger] final(self).full_cells()[z]
                ==> old(self).open_cells()[z] && reachable(old(self).n(), old(self).open_cells(), z),
            final(stack)@.len() >= old(stack)@.len(),
            forall|i: int| 0 <= i < old(stack)@.len() ==> #[trigger] final(stack)@[i] == old(stack)@[i],
            forall|i: int| old(stack)@.len() <= i < final(stack)@.len() ==> final(self).valid(#[trigger] final(stack)@[i]),
    {
        let ghost n = self.n();
        let ghost p = self.p();
        let ghost open = self.open_cells();
        let ghost full0 = self.full_cells();
        let ghost xi = self.site_of(x);
        let ghost st0 = stack@;
        proof {
            self.lemma_index(x);
            lemma_fill_progress_start(full0, sites(n, p, stack@));
        }
        if self.has_top_neighbor(x) {
            let ghost (f1, s1) = (self.full_cells(), stack@);
            let y = self.upper_index(x);
            self.spread(x, y, stack);
            proof {
                self.lemma_spread_progress(full0, st0, f1, s1, self.full_cells(), stack@, y);
            }
        }
        assert(xi >= n ==> (self.full_cells()[xi - n] || !open[xi - n]));
        if self.has_right_neighbor(x) {
            let ghost (f1, s1) = (self.full_cells(), stack@);
            proof {
                lemma_pack_neighbors(n, p, xi);
                lemma_neighbor_symmetric(n, xi, xi + 1);
                self.lemma_valid(xi + 1);
            }
            self.spread(x, x + 1, stack);
            proof {
                self.lemma_spread_progress(full0, st0, f1, s1, self.full_cells(), stack@, (x + 1) as usize);
            }
        }
        assert(xi >= n ==> (self.full_cells()[xi - n] || !open[xi - n]));
        assert(xi % n < n - 1 ==> (self.full_cells()[xi + 1] || !open[xi + 1]));
        if self.has_left_neighbor(x) {
            let ghost (f1, s1) = (self.full_cells(), stack@);
            proof {
                lemma_pack_neighbors(n, p, xi);
                lemma_fundamental_div_mod(xi, n);
                self.lemma_valid(xi - 1);
            }
            self.spread(x, x - 1, stack);
            proof {
                self.lemma_spread_progress(full0, st0, f1, s1, self.full_cells(), stack@, (x - 1) as usize);
            }
        }
        assert(xi >= n ==> (self.full_cells()[xi - n] || !open[xi - n]));
        assert(xi % n < n - 1 ==> (self.full_cells()[xi + 1] || !open[xi + 1]));
        assert(xi % n > 0 ==> (self.full_cells()[xi - 1] || !open[xi - 1]));
        if self.has_bottom_neighbor(x) {
            let ghost (f1, s1) = (self.full_cells(), stack@);
            let y = self.lower_index(x);
            self.spread(x, y, stack);
            proof {
                self.lemma_spread_progress(full0, st0, f1, s1, self.full_cells(), stack@, y);
            }
        }
        proof {
            let full = self.full_cells();
            assert(xi >= n ==> (full[xi - n] || !open[xi - n]));
            assert(xi % n < n - 1 ==> (full[xi + 1] || !open[xi + 1]));
            assert(xi % n > 0 ==> (full[xi - 1] || !open[xi - 1]));
            assert(xi < n * (n - 1) ==> (full[xi + n] || !open[xi + n]));
        }
    }
}

impl HackUnionFindPercolation {
    /// Spreads fullness from `index` to every open site that an open path
    /// joins to it.
    #[verifier::rlimit(40)]
    fn fill_neighbors(&mut self, index: usize)
        requires
            old(self).grid_wf(),
            old(self).valid(index),
            old(self).full_cells()[old(self).site_of(index)],
            fill_pending(old(self).n(), old(self).open_cells(), old(self).full_cells(), seq![old(self).site_of(index) as usize]),
        ensures
            final(self).grid_wf(),
            final(self).same_but_fullness(old(self)),
            fill_complete(old(self).n(), old(self).open_cells(), final(self).full_cells()),
    {
        let ghost n = self.n();
        let ghost p = self.p();
        let ghost open = self.open_cells();
        proof {
            self.lemma_index(index);
            lemma_unpack_range(n, p, index as int);
        }
        let mut stack: Vec<usize> = Vec::new();
        stack.push(index);
        assert(sites(n, p, stack@) =~= seq![self.site_of(index) as usize]);
        while stack.len() > 0
            invariant
                self.grid_wf(),
                self.same_but_fullness(old(self)),
                self.n() == n,
                self.p() == p,
                self.open_cells() == open,
                fill_pending(n, open, self.full_cells(), sites(n, p, stack@)),
                forall|i: int| 0 <= i < stack@.len() ==> self.valid(#[trigger] stack@[i]),
                forall|i: int| 0 <= i < stack@.len() ==> self.full_cells()[self.site_of(#[trigger] stack@[i])],
            decreases count_unfilled(self.full_cells()), stack@.len(),
        {
            let ghost full0 = self.full_cells();
            let ghost stack0 = stack@;
            let x = stack.pop().unwrap();
            let ghost popped = stack@;
            let ghost xi = self.site_of(x);
            proof {
                assert(popped =~= stack0.drop_last());
                assert(stack0.last() == x);
                assert(stack0[stack0.len() - 1] == x);
            }
            self.spread_all(x, &mut stack);
            proof {
                reveal(fill_progress);
                let full = self.full_cells();
                let d0 = sites(n, p, stack0);
                let dp = sites(n, p, popped);
                let d = sites(n, p, stack@);
                assert(dp =~= d0.drop_last());
                lemma_unpack_range(n, p, x as int);
                assert(d0.last() == xi as usize);
                assert forall|a: int, b: int| #[trigger] is_neighbor(n, a, b) && full[a] && open[b] && !#[trigger] full[b]
                    implies d.contains(a as usize) by {
                    lemma_neighbor_symmetric(n, a, b);
                    if a != xi {
                        if full0[a] {
                            assert(!full0[b]);
                            assert(d0.contains(a as usize));
                            let i = choose|i: int| 0 <= i < d0.len() && d0[i] == a as usize;
                            assert(n * n <= n * p) by (nonlinear_arith)
                                requires 0 < n <= p;
                            if i == d0.len() - 1 {
                                assert(d0[i] == xi as usize);
                                assert(a == xi);
                            }
                            assert(i < dp.len());
                            assert(dp[i] == a as usize);
                            assert(d.subrange(0, dp.len() as int)[i] == a as usize);
                            assert(d[i] == a as usize);
                        }
                    }
                }
                assert(n <= n * n) by (nonlinear_arith)
                    requires n > 0;
                assert forall|y: int| 0 <= y < n && #[trigger] open[y] implies full[y] by {
                    assert(full0[y]);
                }
                assert forall|i: int| 0 <= i < stack@.len() implies self.valid(#[trigger] stack@[i]) by {
                    if i < popped.len() {
                        assert(stack@[i] == popped[i]);
                        assert(popped[i] == stack0[i]);
                    }
                }
                assert forall|i: int| 0 <= i < stack@.len() implies full[self.site_of(#[trigger] stack@[i])] by {
                    lemma_unpack_range(n, p, stack@[i] as int);
                    if i < popped.len() {
                        assert(stack@[i] == popped[i]);
                        assert(popped[i] == stack0[i]);
                        assert(full0[self.site_of(stack0[i])]);
                    } else {
                        assert(d[i] == self.site_of(stack@[i]) as usize);
                    }
                }
                assert(fill_pending(n, open, full, d));
            }
        }
    }
}

/// The exponent of a power of two up to 2^31.
fn log2_of_power_of_two(pw: usize) -> (lg: usize)
    requires
        is_power_of_two(pw),
        pw <= 0x8000_0000,
    ensures
        lg < 32,
        pow2(lg as nat) == pw,
{
    let mut lg: usize = 0;
    assert((1usize << 0usize) == 1usize) by (bit_vector);
    while (1usize << lg) < pw
        invariant
            lg < 32,
            (1usize << lg) <= pw,
            pw <= 0x8000_0000,
            is_power_of_two(pw),
        decreases 32 - lg,
    {
        assert(lg + 1 < 32 && (1usize << vstd::prelude::add(lg, 1usize)) <= pw) by (bit_vector)
            requires
                lg < 32,
                (1usize << lg) < pw,
                pw <= 0x8000_0000,
                pw & vstd::prelude::sub(pw, 1usize) == 0,
        ;
        lg = lg + 1;
    }
    proof {
        lemma_usize_pow2_no_overflow(lg as nat);
        lemma_usize_shl_is_mul(1, lg);
    }
    lg
}

impl HackUnionFindPercolation {
    /// A `side_size` by `side_size` grid with every site closed.
    #[verifier::rlimit(40)]
    pub fn new(side_size: usize) -> (r: HackUnionFindPercolation)
        requires
            1 <= side_size,
            side_size * side_size <= usize::MAX / 16,
        ensures
            r.wf(),
            r.side() == side_size,
            r.open_cells() == Seq::new((side_size * side_size) as nat, |i: int| false),
    {
        let ghost n = side_size as int;
        let length = side_size * side_size;
        let mut openness: FnvMap<bool> = fnv_map_with_capacity(length);
        let mut fullness: FnvMap<bool> = fnv_map_with_capacity(length);
        assert(side_size <= 0x4000_0000) by (nonlinear_arith)
            requires side_size * side_size <= usize::MAX / 16, 1 <= side_size, usize::MAX <= 0xffff_ffff_ffff_ffff;
        let power_of_two = round_up_to_next_highest_power_of_two(side_size);
        let ghost p = power_of_two as int;
        proof {
            assert((n * n + 1) / n <= n + 1 && ((n * n + 1) / n) * p + p <= usize::MAX && n * p < usize::MAX / 2)
                by (nonlinear_arith)
                requires
                    1 <= n,
                    n <= p < 2 * n,
                    n * n <= usize::MAX / 16,
            {
                assert(n * n + 1 <= (n + 1) * n);
                assert((n * n + 1) / n <= ((n + 1) * n) / n);
                assert(((n + 1) * n) / n == n + 1);
            }
        }
        let mut generator = DigitBaseGenerator::new(power_of_two, side_size);
        let ghost g0 = generator;
        let mut i: usize = 0;
        while i < length
            invariant
                i <= length,
                length == n * n,
                n >= 1,
                n <= p,
                n * p < usize::MAX / 2,
                g0.can_yield((n * n + 1) as nat),
                forall|k: nat| #[trigger] g0.nth(k) == digit_base_value(p as nat, n as nat, k) as usize,
                forall|k: nat| #[trigger] generator.nth(k) == g0.nth((k + i) as nat),
                forall|k: nat| g0.can_yield((k + i) as nat) ==> #[trigger] generator.can_yield(k),
                forall|s: int| 0 <= s < i ==> #[trigger] openness@.contains_key(pack(n, p, s) as usize)
                    && !openness@[pack(n, p, s) as usize],
                forall|s: int| 0 <= s < i ==> #[trigger] fullness@.contains_key(pack(n, p, s) as usize)
                    && !fullness@[pack(n, p, s) as usize],
                forall|k: usize| #[trigger] openness@.contains_key(k) ==> is_packed(n, p, k as int) && unpack(n, p, k as int) < i,
                forall|k: usize| #[trigger] fullness@.contains_key(k) ==> is_packed(n, p, k as int) && unpack(n, p, k as int) < i,
            decreases length - i,
        {
            proof {
                g0.lemma_can_yield_fewer((i + 1) as nat, (n * n + 1) as nat);
                assert(g0.can_yield((1 + i) as nat) ==> generator.can_yield(1));
            }
            let ghost g_prev = generator;
            let key = generator.next();
            proof {
                assert(key == g0.nth(i as nat));
                assert forall|k: nat| #[trigger] generator.nth(k) == g0.nth((k + (i + 1)) as nat) by {
                    assert(generator.nth(k) == g_prev.nth((k + 1) as nat));
                    assert(g_prev.nth((k + 1) as nat) == g0.nth((k + 1 + i) as nat));
                }
                assert forall|k: nat| g0.can_yield((k + (i + 1)) as nat) implies #[trigger] generator.can_yield(k) by {
                    assert(g0.can_yield((k + 1 + i) as nat) ==> g_prev.can_yield((k + 1) as nat));
                }
                lemma_pack(n, p, i as int);
                lemma_pack_bound(n, p, i as int);
            }
            fnv_map_insert(&mut openness, key, false);
            fnv_map_insert(&mut fullness, key, false);
            proof {
                assert forall|s: int| 0 <= s < i + 1 implies #[trigger] openness@.contains_key(pack(n, p, s) as usize)
                    && !openness@[pack(n, p, s) as usize] by {
                    lemma_pack(n, p, s);
                    lemma_pack_bound(n, p, s);
                }
                assert forall|s: int| 0 <= s < i + 1 implies #[trigger] fullness@.contains_key(pack(n, p, s) as usize)
                    && !fullness@[pack(n, p, s) as usize] by {
                    lemma_pack(n, p, s);
                    lemma_pack_bound(n, p, s);
                }
                assert forall|k: usize| #[trigger] openness@.contains_key(k) implies is_packed(n, p, k as int) && unpack(n, p, k as int) < i + 1 by {
                    if k == key {
                        assert(unpack(n, p, pack(n, p, i as int)) == i);
                    }
                }
                assert forall|k: usize| #[trigger] fullness@.contains_key(k) implies is_packed(n, p, k as int) && unpack(n, p, k as int) < i + 1 by {
                    if k == key {
                        assert(unpack(n, p, pack(n, p, i as int)) == i);
                    }
                }
            }
            i = i + 1;
        }
        proof {
            g0.lemma_can_yield_fewer((length + 1) as nat, (n * n + 1) as nat);
            assert(g0.can_yield((0 + length + 1) as nat) ==> generator.can_yield(1));
        }
        let virtual_cell = generator.next();
        proof {
            lemma_pack_bound(n, p, n * n);
            assert(virtual_cell == g0.nth((n * n) as nat));
        }
        let lg_2 = log2_of_power_of_two(power_of_two);
        let mut ids = DigitBaseGenerator::new(power_of_two, side_size);
        let ghost h0 = ids;
        let mut union_find = PathCompressionWeightedQuickUnion::with_generator(length + 1, &mut ids);
        proof {
            let roots = union_find.roots();
            assert forall|x: usize| #[trigger] roots.contains_key(x) <==> is_packed(n, p, x as int) by {
                if roots.contains_key(x) {
                    let k = choose|k: nat| k < length + 1 && x == #[trigger] h0.nth(k);
                    lemma_pack(n, p, k as int);
                    lemma_pack_bound(n, p, k as int);
                } else if is_packed(n, p, x as int) {
                    let k = unpack(n, p, x as int);
                    assert(x == h0.nth(k as nat));
                }
            }
            assert forall|s: int| n <= s < n * n implies #[trigger] roots[pack(n, p, s) as usize] == pack(n, p, s) as usize by {
                lemma_pack(n, p, s);
                lemma_pack_bound(n, p, s);
                assert(roots.contains_key(pack(n, p, s) as usize));
            }
            assert forall|s: int| n <= s < n * n implies #[trigger] alone(roots, pack(n, p, s) as usize) by {
                lemma_pack(n, p, s);
                lemma_pack_bound(n, p, s);
            }
        }
        let mut q: usize = 0;
        while q < side_size
            invariant
                q <= side_size,
                length == n * n,
                side_size == n,
                n >= 1,
                n <= p,
                n * p < usize::MAX / 2,
                virtual_cell == n * p,
                union_find.wf(),
                forall|x: usize| #[trigger] union_find.roots().contains_key(x) <==> is_packed(n, p, x as int),
                forall|t: usize| t < q ==> #[trigger] union_find.roots()[t] == union_find.roots()[virtual_cell],
                forall|s: int| n <= s < n * n ==> #[trigger] union_find.roots()[pack(n, p, s) as usize] == pack(n, p, s) as usize,
                forall|s: int| n <= s < n * n ==> #[trigger] alone(union_find.roots(), pack(n, p, s) as usize),
            decreases side_size - q,
        {
            let ghost roots = union_find.roots();
            proof {
                lemma_pack(n, p, q as int);
                lemma_pack_top(n, p, q as int);
                lemma_pack(n, p, n * n);
                lemma_pack_bound(n, p, n * n);
                assert(n <= n * n) by (nonlinear_arith)
                    requires n >= 1;
                assert(unpack(n, p, q as int) == q);
                assert(is_packed(n, p, q as int));
                assert(unpack(n, p, virtual_cell as int) == n * n);
                assert(is_packed(n, p, virtual_cell as int));
                assert(roots.contains_key(q));
                assert(roots.contains_key(virtual_cell));
            }
            union_find.union(q, virtual_cell);
            proof {
                let m = union_find.roots();
                let rq = roots[q as usize];
                let rv = roots[virtual_cell];
                assert forall|s: int| n <= s < n * n implies #[trigger] m[pack(n, p, s) as usize] == pack(n, p, s) as usize by {
                    let ps = pack(n, p, s) as usize;
                    lemma_pack(n, p, s);
                    lemma_pack_bound(n, p, s);
                    lemma_pack_neighbors(n, p, s);
                    lemma_pack(n, p, s - n);
                    assert(roots.contains_key(ps));
                    assert(roots[ps] == ps && alone(roots, ps));
                    assert(ps as int >= n);
                    assert(ps != q as usize && ps != virtual_cell);
                    assert(rq != ps && rv != ps);
                }
                assert forall|s: int| n <= s < n * n implies #[trigger] alone(m, pack(n, p, s) as usize) by {
                    let ps = pack(n, p, s) as usize;
                    lemma_pack(n, p, s);
                    lemma_pack_bound(n, p, s);
                    lemma_pack_neighbors(n, p, s);
                    lemma_pack(n, p, s - n);
                    assert(roots.contains_key(ps));
                    assert(roots[ps] == ps && alone(roots, ps));
                    assert(ps as int >= n);
                    assert(rq != ps && rv != ps);
                    assert forall|z: usize| m.contains_key(z) && #[trigger] m[z] == ps implies z == ps by {
                        assert(roots[z] == ps);
                    }
                }
                assert forall|t: usize| t < q + 1 implies #[trigger] m[t] == m[virtual_cell] by {
                    lemma_pack(n, p, t as int);
                    lemma_pack_top(n, p, t as int);
                    assert(is_packed(n, p, t as int));
                    assert(roots.contains_key(t));
                    if t < q {
                        assert(roots[t] == roots[virtual_cell]);
                    }
                }
            }
            q = q + 1;
        }
        let r = HackUnionFindPercolation {
            union_find,
            virtual_cell,
            openness,
            fullness,
            side_size,
            lg_2,
            mask: power_of_two - 1,
        };
        proof {
            lemma_usize_pow2_no_overflow(lg_2 as nat);
            assert(r.grid_wf());
            let roots = r.union_find.roots();
            let d = dense_roots(n, p, roots);
            let open = r.open_cells();
            assert forall|t: int| 0 <= t < n * n implies !#[trigger] open[t] && !r.full_cells()[t] by {
                assert(openness@.contains_key(pack(n, p, t) as usize));
                assert(fullness@.contains_key(pack(n, p, t) as usize));
            }
            assert(open =~= Seq::new((n * n) as nat, |i: int| false));
            assert(r.full_cells() =~= Seq::new((n * n) as nat, |i: int| false));
            assert forall|x: usize| roots.contains_key(x) implies roots.contains_key(#[trigger] roots[x]) by {
                r.union_find.lemma_root_is_element(x);
            }
            assert(packed_keys(n, p, roots));
            assert(n * n <= n * p) by (nonlinear_arith)
                requires 0 < n <= p;
            assert(n <= n * n) by (nonlinear_arith)
                requires n >= 1;
            assert forall|t: usize| t < n implies #[trigger] d[t] == d[(n * n) as usize] by {
                lemma_pack(n, p, t as int);
                lemma_pack_top(n, p, t as int);
                assert(pack(n, p, t as int) as usize == t);
                assert(roots[t] == roots[r.virtual_cell]);
                lemma_pack(n, p, n * n);
                lemma_pack_bound(n, p, n * n);
                assert(t == pack(n, p, t as int) as usize);
            }
            assert forall|x: usize| n <= x < n * n && !open[x as int] implies #[trigger] d[x] == x by {
                lemma_pack(n, p, x as int);
                lemma_pack_bound(n, p, x as int);
            }
            assert forall|x: usize| n <= x < n * n && !open[x as int] implies #[trigger] alone(d, x) by {
                lemma_pack(n, p, x as int);
                lemma_pack_bound(n, p, x as int);
                let px = pack(n, p, x as int) as usize;
                assert forall|z: usize| d.contains_key(z) && #[trigger] d[z] == x implies z == x by {
                    lemma_pack(n, p, z as int);
                    lemma_pack_bound(n, p, z as int);
                    let pz = pack(n, p, z as int) as usize;
                    assert(roots.contains_key(pz));
                    assert(roots.contains_key(roots[pz]));
                    lemma_unpack_range(n, p, roots[pz] as int);
                    assert(roots[pz] == px);
                    assert(alone(roots, px));
                    assert(pz == px);
                }
            }
            assert(uf_tracks(n, open, d, -1));
        }
        r
    }
}

impl Percolation for HackUnionFindPercolation {
    closed spec fn wf(&self) -> bool {
        let n = self.n();
        let p = self.p();
        &&& self.grid_wf()
        &&& fill_complete(n, self.open_cells(), self.full_cells())
        &&& self.union_find.wf()
        &&& self.virtual_cell == n * p
        &&& packed_keys(n, p, self.union_find.roots())
        &&& uf_tracks(n, self.open_cells(), dense_roots(n, p, self.union_find.roots()), -1)
    }

    closed spec fn side(&self) -> nat {
        self.side_size as nat
    }

    closed spec fn open_cells(&self) -> Seq<bool> {
        Seq::new((self.n() * self.n()) as nat, |s: int| self.openness@[pack(self.n(), self.p(), s) as usize])
    }

    proof fn lemma_site_count(&self) {
    }

    #[verifier::rlimit(40)]
    fn open(&mut self, row: usize, col: usize) {
        let index = self.cell_index(row, col);
        if self.is_open_by_index(index) {
            assert(self.open_cells() =~= old(self).open_cells().update(self.site_of(index), true));
            return;
        }
        let ghost n = self.n();
        let ghost p = self.p();
        let ghost open0 = self.open_cells();
        let ghost full0 = self.full_cells();
        let ghost i = self.site_of(index);
        proof {
            self.lemma_index(index);
            lemma_unpack_range(n, p, index as int);
            lemma_open_site(n, open0, full0, i);
            lemma_open_tracks(n, open0, dense_roots(n, p, self.union_find.roots()), i);
        }
        self.make_open(index);
        let ghost open2 = self.open_cells();
        let top = self.connect_with_top(index);
        let ghost after_top = dense_roots(n, p, self.union_find.roots());
        let left = self.connect_with_left(index);
        let ghost after_left = dense_roots(n, p, self.union_find.roots());
        let right = self.connect_with_right(index);
        let ghost after_right = dense_roots(n, p, self.union_find.roots());
        let bottom = self.connect_with_bottom(index);
        let union = top || left || right || bottom;
        proof {
            let rs = dense_roots(n, p, self.union_find.roots());
            assert(n > 0) by (nonlinear_arith)
                requires 0 <= i < n * n, n >= 0;
            if i == 0 {
                lemma_small_mod(0, n as nat);
            }
            let iu = i as usize;
            assert(i >= n && open2[i - n] ==> rs[iu] == rs[(i - n) as usize]) by {
                if i >= n && open2[i - n] {
                    assert(after_top.contains_key(iu) && after_top.contains_key((i - n) as usize));
                    assert(after_left.contains_key(iu) && after_left.contains_key((i - n) as usize));
                    assert(after_right.contains_key(iu) && after_right.contains_key((i - n) as usize));
                }
            }
            assert(i % n > 0 && open2[i - 1] ==> rs[iu] == rs[(i - 1) as usize]) by {
                if i % n > 0 && open2[i - 1] {
                    assert(after_left.contains_key(iu) && after_left.contains_key((i - 1) as usize));
                    assert(after_right.contains_key(iu) && after_right.contains_key((i - 1) as usize));
                }
            }
            assert(i % n < n - 1 && open2[i + 1] ==> rs[iu] == rs[(i + 1) as usize]) by {
                if i % n < n - 1 && open2[i + 1] {
                    lemma_neighbor_symmetric(n, i, i + 1);
                    assert(after_right.contains_key(iu) && after_right.contains_key((i + 1) as usize));
                }
            }
            assert forall|x: int, y: int| #[trigger] is_neighbor(n, x, y) && open2[x] && open2[y]
                implies rs[x as usize] == rs[y as usize] by {
                lemma_neighbor_symmetric(n, x, y);
                if x != i && y != i {
                } else if x == i {
                } else {
                    assert(is_neighbor(n, i, x));
                }
            }
            assert(uf_tracks(n, open2, rs, -1));
        }
        let ghost joins = i < n || exists|w: int| #[trigger] is_neighbor(n, i, w) && full0[w];
        let ghost reach = reachable(n, open2, i);
        assert(i < n <==> row == 1) by (nonlinear_arith)
            requires i == (row - 1) * n + (col - 1), 1 <= row, 1 <= col <= n;
        let ghost roots = self.union_find.roots();
        proof {
            lemma_pack(n, p, n * n);
            lemma_pack_bound(n, p, n * n);
            assert(roots.contains_key(index) && roots.contains_key(self.virtual_cell));
            assert(roots.contains_key(roots[index]) && roots.contains_key(roots[self.virtual_cell]));
            lemma_unpack_range(n, p, roots[index] as int);
            lemma_unpack_range(n, p, roots[self.virtual_cell] as int);
            assert(dense_roots(n, p, roots)[i as usize] == unpack(n, p, roots[index] as int) as usize);
            assert(dense_roots(n, p, roots)[(n * n) as usize] == unpack(n, p, roots[self.virtual_cell] as int) as usize);
        }
        if (union || row == 1) && self.union_find.connected(index, self.virtual_cell) {
            proof {
                assert(reach);
                if !joins {
                    lemma_full_iff_reachable(n, open2, full0, i);
                }
            }
            self.make_full(index);
            self.fill_neighbors(index);
        } else {
            proof {
                if reach {
                    lemma_reachable_joined(n, open2, dense_roots(n, p, roots), i);
                    if !(union || row == 1) {
                        if joins {
                            let w = choose|w: int| #[trigger] is_neighbor(n, i, w) && full0[w];
                            lemma_neighbor_symmetric(n, i, w);
                            assert(open0[w]);
                            assert(open2[w]);
                        }
                        lemma_full_iff_reachable(n, open2, full0, i);
                    }
                }
                if joins {
                    assert(reach);
                }
            }
        }
    }

    fn is_open(&self, row: usize, col: usize) -> (r: bool) {
        let index = self.cell_index(row, col);
        self.is_open_by_index(index)
    }

    fn is_full(&self, row: usize, col: usize) -> (r: bool) {
        let index = self.cell_index(row, col);
        proof {
            lemma_full_iff_reachable(self.n(), self.open_cells(), self.full_cells(), self.site_of(index));
        }
        self.is_full_by_index(index)
    }

    fn percolates(&self) -> (r: bool) {
        let side = self.side_size;
        assert(side <= side * self.p()) by (nonlinear_arith)
            requires side >= 1, self.p() >= 1;
        let mut col: usize = 1;
        while col <= side
            invariant
                self.wf(),
                side == self.side(),
                side < usize::MAX,
                1 <= col <= side + 1,
                forall|c: int| 0 <= c < col - 1 ==> !#[trigger] reachable(side as int, self.open_cells(), (side - 1) * side + c),
            decreases side + 1 - col,
        {
            if self.is_full(side, col) {
                return true;
            }
            col = col + 1;
        }
        false
    }
}

impl HackUnionFindPercolation {
    fn make_open(&mut self, index: usize)
        requires
            old(self).grid_wf(),
            old(self).valid(index),
        ensures
            final(self).grid_wf(),
            final(self).union_find == old(self).union_find,
            final(self).virtual_cell == old(self).virtual_cell,
            final(self).side_size == old(self).side_size,
            final(self).mask == old(self).mask,
            final(self).full_cells() == old(self).full_cells(),
            final(self).open_cells() == old(self).open_cells().update(old(self).site_of(index), true),
    {
        proof {
            self.lemma_index(index);
        }
        fnv_map_insert(&mut self.openness, index, true);
        proof {
            let n = self.n();
            let p = self.p();
            assert forall|t: int| 0 <= t < n * n implies #[trigger] self.openness@.contains_key(pack(n, p, t) as usize) by {
                assert(old(self).openness@.contains_key(pack(n, p, t) as usize));
            }
            assert forall|k: usize| #[trigger] self.openness@.contains_key(k) implies is_packed(n, p, k as int) && unpack(n, p, k as int) < n * n by {
                if k != index {
                    assert(old(self).openness@.contains_key(k));
                }
            }
            assert forall|t: int| 0 <= t < n * n implies #[trigger] self.open_cells()[t]
                == old(self).open_cells().update(old(self).site_of(index), true)[t] by {
                lemma_pack(n, p, t);
                lemma_pack_bound(n, p, t);
                lemma_pack(n, p, self.site_of(index));
            }
            assert(self.open_cells() =~= old(self).open_cells().update(old(self).site_of(index), true));
            assert(self.full_cells() =~= old(self).full_cells());
        }
    }

    closed spec fn mid_open(&self, index: usize) -> bool {
        let n = self.n();
        let p = self.p();
        &&& self.grid_wf()
        &&& self.union_find.wf()
        &&& self.virtual_cell == n * p
        &&& self.valid(index)
        &&& self.open_cells()[self.site_of(index)]
        &&& packed_keys(n, p, self.union_find.roots())
        &&& uf_tracks(n, self.open_cells(), dense_roots(n, p, self.union_find.roots()), self.site_of(index))
    }

    closed spec fn same_but_union_find(&self, other: &Self) -> bool {
        &&& self.virtual_cell == other.virtual_cell
        &&& self.openness == other.openness
        &&& self.fullness == other.fullness
        &&& self.side_size == other.side_size
        &&& self.lg_2 == other.lg_2
        &&& self.mask == other.mask
    }

    /// Joins the set of `index` with that of its neighbour `other` when
    /// `other` is open, and tells whether it is.
    #[verifier::rlimit(60)]
    #[verifier::spinoff_prover]
    fn connect(&mut self, index: usize, other: usize) -> (r: bool)
        requires
            old(self).mid_open(index),
            old(self).valid(other),
            is_neighbor(old(self).n(), old(self).site_of(index), old(self).site_of(other)),
        ensures
            final(self).mid_open(index),
            final(self).same_but_union_find(old(self)),
            coarser(
                dense_roots(old(self).n(), old(self).p(), old(self).union_find.roots()),
                dense_roots(old(self).n(), old(self).p(), final(self).union_find.roots()),
            ),
            r == old(self).open_cells()[old(self).site_of(other)],
            r ==> dense_roots(old(self).n(), old(self).p(), final(self).union_find.roots())[old(self).site_of(index) as usize]
                == dense_roots(old(self).n(), old(self).p(), final(self).union_find.roots())[old(self).site_of(other) as usize],
    {
        let ghost n = self.n();
        let ghost p = self.p();
        let ghost si = self.site_of(index);
        let ghost so = self.site_of(other);
        proof {
            lemma_neighbor_symmetric(n, si, so);
            self.lemma_index(index);
            self.lemma_index(other);
            lemma_unpack_range(n, p, index as int);
            lemma_unpack_range(n, p, other as int);
        }
        if self.is_open_by_index(other) {
            let ghost roots = self.union_find.roots();
            let ghost uf0 = self.union_find;
            proof {
                assert(roots.contains_key(index) && roots.contains_key(other));
            }
            self.union_find.union(index, other);
            proof {
                let link = uf0.link_root(roots[index], roots[other]);
                let m = self.union_find.roots();
                assert forall|x: usize| m.contains_key(x) implies m.contains_key(#[trigger] m[x]) by {
                    self.union_find.lemma_root_is_element(x);
                }
                lemma_packed_union(n, p, self.open_cells(), roots, m, si, so, link);
            }
            true
        } else {
            proof {
                let d = dense_roots(n, p, self.union_find.roots());
                assert forall|x: usize, y: usize| d.contains_key(x) && d.contains_key(y) && #[trigger] d[x] == #[trigger] d[y]
                    implies d[x] == d[y] by {
                }
            }
            false
        }
    }

    fn connect_with_top(&mut self, index: usize) -> (r: bool)
        requires
            old(self).mid_open(index),
        ensures
            final(self).mid_open(index),
            final(self).same_but_union_find(old(self)),
            coarser(
                dense_roots(old(self).n(), old(self).p(), old(self).union_find.roots()),
                dense_roots(old(self).n(), old(self).p(), final(self).union_find.roots()),
            ),
            ({
                let n = old(self).n();
                let s = old(self).site_of(index);
                let d = dense_roots(old(self).n(), old(self).p(), final(self).union_find.roots());
                &&& r == (s >= n && old(self).open_cells()[s - n])
                &&& r ==> d[s as usize] == d[(s - n) as usize]
            }),
    {
        if self.has_top_neighbor(index) {
            let upper_index = self.upper_index(index);
            self.connect(index, upper_index)
        } else {
            proof {
                let d = dense_roots(self.n(), self.p(), self.union_find.roots());
                assert(coarser(d, d));
            }
            false
        }
    }

    fn connect_with_left(&mut self, index: usize) -> (r: bool)
        requires
            old(self).mid_open(index),
        ensures
            final(self).mid_open(index),
            final(self).same_but_union_find(old(self)),
            coarser(
                dense_roots(old(self).n(), old(self).p(), old(self).union_find.roots()),
                dense_roots(old(self).n(), old(self).p(), final(self).union_find.roots()),
            ),
            ({
                let n = old(self).n();
                let s = old(self).site_of(index);
                let d = dense_roots(old(self).n(), old(self).p(), final(self).union_find.roots());
                &&& r == (s % n > 0 && old(self).open_cells()[s - 1])
                &&& r ==> d[s as usize] == d[(s - 1) as usize]
            }),
    {
        if self.has_left_neighbor(index) {
            proof {
                let n = self.n();
                let sv = self.site_of(index);
                self.lemma_index(index);
                lemma_pack_neighbors(n, self.p(), sv);
                lemma_fundamental_div_mod(sv, n);
                lemma_mod_pos_bound(sv, n);
                lemma_div_pos_is_pos(sv, n);
                assert(sv >= 1) by (nonlinear_arith)
                    requires sv == n * (sv / n) + sv % n, sv / n >= 0, sv % n > 0, n > 0;
                self.lemma_valid(sv - 1);
            }
            self.connect(index, index - 1)
        } else {
            proof {
                let d = dense_roots(self.n(), self.p(), self.union_find.roots());
                assert(coarser(d, d));
            }
            false
        }
    }

    fn connect_with_right(&mut self, index: usize) -> (r: bool)
        requires
            old(self).mid_open(index),
        ensures
            final(self).mid_open(index),
            final(self).same_but_union_find(old(self)),
            coarser(
                dense_roots(old(self).n(), old(self).p(), old(self).union_find.roots()),
                dense_roots(old(self).n(), old(self).p(), final(self).union_find.roots()),
            ),
            ({
                let n = old(self).n();
                let s = old(self).site_of(index);
                let d = dense_roots(old(self).n(), old(self).p(), final(self).union_find.roots());
                &&& r == (s % n < n - 1 && old(self).open_cells()[s + 1])
                &&& r ==> d[s as usize] == d[(s + 1) as usize]
            }),
    {
        if self.has_right_neighbor(index) {
            proof {
                let n = self.n();
                let sv = self.site_of(index);
                self.lemma_index(index);
                lemma_pack_neighbors(n, self.p(), sv);
                lemma_neighbor_symmetric(n, sv, sv + 1);
                self.lemma_valid(sv + 1);
            }
            self.connect(index, index + 1)
        } else {
            proof {
                let d = dense_roots(self.n(), self.p(), self.union_find.roots());
                assert(coarser(d, d));
            }
            false
        }
    }

    fn connect_with_bottom(&mut self, index: usize) -> (r: bool)
        requires
            old(self).mid_open(index),
        ensures
            final(self).mid_open(index),
            final(self).same_but_union_find(old(self)),
            coarser(
                dense_roots(old(self).n(), old(self).p(), old(self).union_find.roots()),
                dense_roots(old(self).n(), old(self).p(), final(self).union_find.roots()),
            ),
            ({
                let n = old(self).n();
                let s = old(self).site_of(index);
                let d = dense_roots(old(self).n(), old(self).p(), final(self).union_find.roots());
                &&& r == (s < n * (n - 1) && old(self).open_cells()[s + n])
                &&& r ==> d[s as usize] == d[(s + n) as usize]
            }),
    {
        if self.has_bottom_neighbor(index) {
            let bottom_index = self.lower_index(index);
            self.connect(index, bottom_index)
        } else {
            proof {
                let d = dense_roots(self.n(), self.p(), self.union_find.roots());
                assert(coarser(d, d));
            }
            false
        }
    }
}

} // verus!
