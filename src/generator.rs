//! Sources of element identifiers.
use vstd::prelude::*;
use vstd::arithmetic::div_mod::{
    lemma_basic_div, lemma_div_is_ordered, lemma_div_plus_one, lemma_div_pos_is_pos, lemma_mod_add_multiples_vanish,
    lemma_small_mod,
};
use vstd::arithmetic::mul::{lemma_mul_inequality, lemma_mul_is_distributive_add_other_way, lemma_mul_nonnegative};

verus! {

/// An endless sequence of identifiers, handed out one `next` at a time.
pub trait Generator: Sized {
    /// The value that the `k`-th call of `next` from now returns (`k` from 0).
    spec fn nth(&self, k: nat) -> usize;

    /// The next `k` calls of `next` can be made without overflow.
    spec fn can_yield(&self, k: nat) -> bool;

    /// One past the last value handed out by `next` (0 before the first call).
    spec fn position(&self) -> usize;

    /// Room for `k` values leaves room for fewer.
    proof fn lemma_can_yield_fewer(&self, j: nat, k: nat)
        requires
            j <= k,
            self.can_yield(k),
        ensures
            self.can_yield(j),
    ;

    fn next(&mut self) -> (r: usize)
        requires
            old(self).can_yield(1),
        ensures
            r == old(self).nth(0),
            final(self).position() == r + 1,
            forall|k: nat| #[trigger] final(self).nth(k) == old(self).nth(k + 1),
            forall|k: nat| old(self).can_yield(k + 1) ==> #[trigger] final(self).can_yield(k),
    ;
}

/// Yields 0, 1, 2, ...
pub struct DefaultGenerator {
    current: usize,
}

impl DefaultGenerator {
    pub closed spec fn view(&self) -> nat {
        self.current as nat
    }

    pub fn new() -> (r: DefaultGenerator)
        ensures
            r@ == 0,
            r.position() == 0,
            forall|k: nat| k <= usize::MAX ==> #[trigger] r.nth(k) == k,
    {
        DefaultGenerator { current: 0 }
    }
}

impl Generator for DefaultGenerator {
    open spec fn nth(&self, k: nat) -> usize {
        (self@ + k) as usize
    }

    open spec fn can_yield(&self, k: nat) -> bool {
        self@ + k <= usize::MAX
    }

    open spec fn position(&self) -> usize {
        self@ as usize
    }

    proof fn lemma_can_yield_fewer(&self, j: nat, k: nat) {
    }

    fn next(&mut self) -> (r: usize) {
        let ret = self.current;
        self.current = self.current + 1;
        ret
    }
}

/// Yields `limit` consecutive values at the start of each block of `base`
/// values: with `base` 16 and `limit` 10 it yields 0..9, 16..25, 32..41, ...
pub struct DigitBaseGenerator {
    current: usize,
    base: usize,
    limit: usize,
    block_start: usize,
}

/// The `k`-th value (from 0) of the sequence with blocks of `base` that keep
/// their first `limit` values.
pub open spec fn digit_base_value(base: nat, limit: nat, k: nat) -> int
    recommends
        limit > 0,
{
    (k / limit) as int * base + (k % limit) as int
}

impl DigitBaseGenerator {
    pub closed spec fn base(&self) -> nat {
        self.base as nat
    }

    pub closed spec fn limit(&self) -> nat {
        self.limit as nat
    }

    /// Offset of the next value past the start of the current block,
    /// counted in kept values.
    closed spec fn offset(&self) -> int {
        self.current - self.block_start
    }

    closed spec fn inv(&self) -> bool {
        &&& 0 < self.limit <= self.base
        &&& self.block_start <= self.current <= self.block_start + self.limit
    }

    /// `base` and `limit` as described above; `limit` must be at least 1 and
    /// at most `base`.
    pub fn new(base: usize, limit: usize) -> (r: DigitBaseGenerator)
        requires
            0 < limit <= base,
        ensures
            r.base() == base,
            r.limit() == limit,
            r.position() == 0,
            forall|k: nat| #[trigger] r.nth(k) == digit_base_value(base as nat, limit as nat, k) as usize,
            forall|k: nat| #[trigger] r.can_yield(k)
                <==> (k / limit as nat) as int * base + base <= usize::MAX,
    {
        DigitBaseGenerator { current: 0, base, limit, block_start: 0 }
    }

    /// The value that the generator stands at: one past the last value handed out
    /// (0 before the first).
    pub fn current(&self) -> (r: usize)
        ensures
            r == self.position(),
    {
        self.current
    }
}

impl Generator for DigitBaseGenerator {
    closed spec fn nth(&self, k: nat) -> usize {
        (self.block_start + digit_base_value(self.base as nat, self.limit as nat, (self.offset() + k) as nat)) as usize
    }

    closed spec fn position(&self) -> usize {
        self.current
    }

    closed spec fn can_yield(&self, k: nat) -> bool {
        &&& self.inv()
        &&& self.block_start + ((self.offset() + k) / self.limit as int) * self.base + self.base <= usize::MAX
    }

    proof fn lemma_can_yield_fewer(&self, j: nat, k: nat) {
        lemma_div_is_ordered(self.offset() + j, self.offset() + k, self.limit as int);
        lemma_mul_inequality((self.offset() + j) / self.limit as int, (self.offset() + k) / self.limit as int, self.base as int);
    }

    fn next(&mut self) -> (r: usize) {
        let ghost g0 = *self;
        let ghost l = self.limit as int;
        let ghost b = self.base as int;
        let ghost bs = self.block_start as int;
        let ghost o = g0.offset();
        proof {
            lemma_div_pos_is_pos(o + 1, l);
            lemma_mul_nonnegative((o + 1) / l, b);
        }
        if self.current - self.block_start == self.limit {
            proof {
                lemma_div_plus_one(1, l);
                lemma_div_pos_is_pos(1, l);
                lemma_mul_inequality(1, (o + 1) / l, b);
            }
            self.block_start = self.block_start + self.base;
            self.current = self.block_start;
            let ret = self.current;
            self.current = self.current + 1;
            proof {
                lemma_div_plus_one(0, l);
                lemma_small_mod(0, l as nat);
                lemma_mod_add_multiples_vanish(0, l);
                assert(ret == g0.nth(0));
                assert forall|k: nat| #[trigger] self.nth(k) == g0.nth(k + 1) by {
                    let t = 1 + k as int;
                    assert(self.offset() == 1);
                    lemma_div_plus_one(t, l);
                    lemma_mod_add_multiples_vanish(t, l);
                    lemma_mul_is_distributive_add_other_way(b, 1, t / l);
                    assert(g0.offset() + (k + 1) == l + t);
                }
                assert forall|k: nat| g0.can_yield(k + 1) implies #[trigger] self.can_yield(k) by {
                    let t = 1 + k as int;
                    assert(self.offset() == 1);
                    lemma_div_plus_one(t, l);
                    lemma_mul_is_distributive_add_other_way(b, 1, t / l);
                    assert(g0.offset() + (k + 1) == l + t);
                }
            }
            ret
        } else {
            let ret = self.current;
            self.current = self.current + 1;
            proof {
                lemma_basic_div(o, l);
                lemma_small_mod(o as nat, l as nat);
                assert(ret == g0.nth(0));
                assert forall|k: nat| #[trigger] self.nth(k) == g0.nth(k + 1) by {
                    assert(self.offset() + k == g0.offset() + (k + 1));
                }
                assert forall|k: nat| g0.can_yield(k + 1) implies #[trigger] self.can_yield(k) by {
                    assert(self.offset() + k == g0.offset() + (k + 1));
                }
            }
            ret
        }
    }
}

} // verus!
