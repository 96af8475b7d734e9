//! A cursor over the cartesian product of two collected sequences.

use vstd::prelude::*;
use vstd::arithmetic::div_mod::lemma_fundamental_div_mod;
use vstd::arithmetic::div_mod::lemma_fundamental_div_mod_converse;
use vstd::arithmetic::mul::lemma_mul_inequality;

verus! {

/// Yields every pair of one item of `xs` and one item of `ys`, in row-major
/// order: all pairs starting with `xs[0]` first, then those with `xs[1]`,
/// and so on.
pub struct CPIter<A, B> {
    pub xs: Vec<A>,
    pub ys: Vec<B>,
    pub n: usize,
}

impl<A: Copy, B: Copy> CPIter<A, B> {
    /// Starts a cursor over all pairs of `xs` and `ys`.
    pub fn new(xs: Vec<A>, ys: Vec<B>) -> (r: CPIter<A, B>)
        ensures
            r.xs@ == xs@,
            r.ys@ == ys@,
            r.n == 0,
    {
        CPIter { xs, ys, n: 0 }
    }

    /// Yields the pair numbered `n` in row-major order and advances the
    /// cursor, or yields `None`, changing nothing, once all
    /// `xs.len() * ys.len()` pairs are out.
    pub fn next(&mut self) -> (r: Option<(A, B)>)
        requires
            old(self).xs@.len() * old(self).ys@.len() <= usize::MAX,
        ensures
            final(self).xs@ == old(self).xs@,
            final(self).ys@ == old(self).ys@,
            old(self).n < old(self).xs@.len() * old(self).ys@.len() ==> {
                &&& r == Some(
                    (
                        old(self).xs@[old(self).n as int / old(self).ys@.len() as int],
                        old(self).ys@[old(self).n as int % old(self).ys@.len() as int],
                    ),
                )
                &&& final(self).n == old(self).n + 1
            },
            old(self).n >= old(self).xs@.len() * old(self).ys@.len() ==> {
                &&& r is None
                &&& final(self).n == old(self).n
            },
    {
        let ghost xl = self.xs@.len() as int;
        let ghost yl = self.ys@.len() as int;
        let ghost n0 = self.n as int;
        if self.ys.len() > 0 && self.n / self.ys.len() < self.xs.len() {
            proof {
                lemma_fundamental_div_mod(n0, yl);
                lemma_mul_inequality(n0 / yl, xl - 1, yl);
                assert(n0 < xl * yl) by {
                    assert(yl * (n0 / yl) == (n0 / yl) * yl);
                    assert((xl - 1) * yl == xl * yl - yl) by (nonlinear_arith);
                }
            }
            let i = self.n / self.ys.len();
            let j = self.n % self.ys.len();
            let x = self.xs[i];
            let y = self.ys[j];
            self.n = self.n + 1;
            Some((x, y))
        } else {
            proof {
                if yl > 0 {
                    lemma_fundamental_div_mod(n0, yl);
                    lemma_mul_inequality(xl, n0 / yl, yl);
                    assert(n0 >= xl * yl) by {
                        assert(yl * (n0 / yl) == (n0 / yl) * yl);
                        assert(xl * yl == yl * xl);
                    }
                } else {
                    assert(xl * yl == 0) by (nonlinear_arith)
                        requires yl == 0;
                }
            }
            None
        }
    }
}

} // verus!
