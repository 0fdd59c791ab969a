//! Sums over GF(2) of finitely many terms: the facts that the proofs about
//! products of polynomials rest on.
use crate::bits::xor_sum;
use vstd::prelude::*;

verus! {

/// A sum of zeros is zero.
pub proof fn lemma_xor_sum_zero(f: spec_fn(int) -> bool, n: nat)
    requires
        forall|i: int| 0 <= i < n ==> !#[trigger] f(i),
    ensures
        !xor_sum(f, n),
    decreases n,
{
    if n > 0 {
        lemma_xor_sum_zero(f, (n - 1) as nat);
    }
}

/// The sum of term-wise sums is the sum of the sums.
pub proof fn lemma_xor_sum_xor(
    f: spec_fn(int) -> bool,
    g: spec_fn(int) -> bool,
    h: spec_fn(int) -> bool,
    n: nat,
)
    requires
        forall|i: int| 0 <= i < n ==> #[trigger] h(i) == (f(i) ^ g(i)),
    ensures
        xor_sum(h, n) == (xor_sum(f, n) ^ xor_sum(g, n)),
    decreases n,
{
    if n > 0 {
        lemma_xor_sum_xor(f, g, h, (n - 1) as nat);
    }
}

/// A sum with at most one non-zero term, the one at `c`, is that term.
pub proof fn lemma_xor_sum_single(f: spec_fn(int) -> bool, n: nat, c: int)
    requires
        forall|i: int| 0 <= i < n && i != c ==> !#[trigger] f(i),
    ensures
        xor_sum(f, n) == (0 <= c < n && f(c)),
    decreases n,
{
    if n > 0 {
        lemma_xor_sum_single(f, (n - 1) as nat, c);
    }
}

/// `h` with its first argument fixed.
pub open spec fn row(h: spec_fn(int, int) -> bool, i: int) -> spec_fn(int) -> bool {
    |j: int| h(i, j)
}

/// `h` with its second argument fixed.
pub open spec fn column(h: spec_fn(int, int) -> bool, j: int) -> spec_fn(int) -> bool {
    |i: int| h(i, j)
}

/// A double sum can be taken row by row or column by column: if `r(i)` is
/// the sum of row `i` and `c(j)` the sum of column `j`, the sum of the `r`
/// is the sum of the `c`.
pub proof fn lemma_xor_sum_swap(
    h: spec_fn(int, int) -> bool,
    r: spec_fn(int) -> bool,
    c: spec_fn(int) -> bool,
    n: nat,
    m: nat,
)
    requires
        forall|i: int| 0 <= i < n ==> #[trigger] r(i) == xor_sum(row(h, i), m),
        forall|j: int| 0 <= j < m ==> #[trigger] c(j) == xor_sum(column(h, j), n),
    ensures
        xor_sum(r, n) == xor_sum(c, m),
    decreases n,
{
    if n == 0 {
        lemma_xor_sum_zero(c, m);
    } else {
        let below = |j: int| xor_sum(column(h, j), (n - 1) as nat);
        lemma_xor_sum_swap(h, r, below, (n - 1) as nat, m);
        let last = row(h, n - 1);
        assert forall|j: int| 0 <= j < m implies #[trigger] c(j) == (below(j) ^ last(j)) by {
            assert(column(h, j)(n - 1) == h(n - 1, j));
        }
        lemma_xor_sum_xor(below, last, c, m);
    }
}

} // verus!
