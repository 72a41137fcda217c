use vstd::arithmetic::div_mod::lemma_div_multiples_vanish;
use vstd::prelude::*;

verus! {

/// Relies on usize::saturating_mul: the product, saturating at usize::MAX
/// instead of overflowing, as its std documentation states.
pub assume_specification[ usize::saturating_mul ](x: usize, y: usize) -> (r: usize)
    ensures
        r == if x * y > usize::MAX {
            usize::MAX as int
        } else {
            x * y
        },
;

/// The binomial coefficient, defined by Pascal's rule: the number of
/// `k`-element subsets of an `n`-element set.
pub open spec fn binom(n: nat, k: nat) -> nat
    decreases n,
{
    if k == 0 {
        1
    } else if k > n {
        0
    } else {
        binom((n - 1) as nat, (k - 1) as nat) + binom((n - 1) as nat, k)
    }
}

pub proof fn lemma_binom_full(n: nat)
    ensures
        binom(n, n) == 1,
    decreases n,
{
    if n > 0 {
        lemma_binom_full((n - 1) as nat);
        assert(binom((n - 1) as nat, n) == 0);
    }
}

pub proof fn lemma_binom_one(n: nat)
    requires
        n >= 1,
    ensures
        binom(n, 1) == n,
    decreases n,
{
    assert(binom((n - 1) as nat, 0) == 1);
    if n == 1 {
        assert(binom(0, 1) == 0);
    } else {
        lemma_binom_one((n - 1) as nat);
    }
}

pub proof fn lemma_binom_almost_full(n: nat)
    requires
        n >= 1,
    ensures
        binom(n, (n - 1) as nat) == n,
    decreases n,
{
    if n == 1 {
    } else {
        lemma_binom_almost_full((n - 1) as nat);
        lemma_binom_full((n - 1) as nat);
    }
}

/// The multiplicative step between adjacent binomial coefficients:
/// `binom(n, i) * (n - i) == binom(n, i + 1) * (i + 1)`.
pub proof fn lemma_binom_step(n: nat, i: nat)
    requires
        i < n,
    ensures
        binom(n, i) * (n - i) == binom(n, (i + 1) as nat) * (i + 1),
    decreases n,
{
    if i == 0 {
        lemma_binom_one(n);
        assert(binom(n, 0) == 1);
        assert(binom(n, i) * (n - i) == binom(n, (i + 1) as nat) * (i + 1));
    } else if i == n - 1 {
        lemma_binom_almost_full(n);
        lemma_binom_full(n);
        assert(i == (n - 1) as nat);
        assert(binom(n, i) == n);
        assert((i + 1) as nat == n);
        assert(binom(n, (i + 1) as nat) == 1);
        assert(n - i == 1);
        assert(binom(n, i) * (n - i) == binom(n, (i + 1) as nat) * (i + 1));
    } else {
        let m = (n - 1) as nat;
        let b_lo = binom(m, (i - 1) as nat) as int;
        let b_mid = binom(m, i) as int;
        let b_hi = binom(m, (i + 1) as nat) as int;
        lemma_binom_step(m, (i - 1) as nat);
        assert(b_lo * (m - (i - 1)) == b_mid * i);
        assert(b_lo * (m - (i - 1)) == b_lo * (n - i)) by (nonlinear_arith)
            requires
                m == n - 1,
        ;
        lemma_binom_step(m, i);
        assert(b_mid * (m - i) == b_hi * (i + 1));
        assert(b_mid * (m - i) == b_mid * (n - 1 - i)) by (nonlinear_arith)
            requires
                m == n - 1,
        ;
        assert(binom(n, i) == binom(m, (i - 1) as nat) + binom(m, i));
        assert(binom(n, (i + 1) as nat) == binom(m, i) + binom(m, (i + 1) as nat));
        assert((b_lo + b_mid) * (n - i) == b_lo * (n - i) + b_mid * (n - i)) by (nonlinear_arith);
        assert(b_mid * i + b_mid * (n - i) == b_mid * n) by (nonlinear_arith);
        assert((b_mid + b_hi) * (i + 1) == b_mid * (i + 1) + b_hi * (i + 1)) by (nonlinear_arith);
        assert(b_mid * (i + 1) + b_mid * (n - 1 - i) == b_mid * n) by (nonlinear_arith);
        assert(binom(n, i) * (n - i) == (b_lo + b_mid) * (n - i));
        assert(binom(n, i) * (n - i) == b_mid * n);
        assert(binom(n, (i + 1) as nat) * (i + 1) == (b_mid + b_hi) * (i + 1));
        assert(binom(n, (i + 1) as nat) * (i + 1) == b_mid * n);
    }
}

/// Symmetry of the binomial coefficient: choosing `k` elements is choosing
/// the `n - k` left out.
pub proof fn lemma_binom_sym(n: nat, k: nat)
    requires
        k <= n,
    ensures
        binom(n, k) == binom(n, (n - k) as nat),
    decreases n,
{
    if k == 0 {
        lemma_binom_full(n);
    } else if k == n {
        lemma_binom_full(n);
    } else {
        let m = (n - 1) as nat;
        lemma_binom_sym(m, (k - 1) as nat);
        lemma_binom_sym(m, k);
        assert((m - (k - 1)) as nat == (n - k) as nat);
        assert((m - k) as nat == (n - k - 1) as nat);
    }
}

/// The smaller of `k` and `n - k`: evaluating `binom(n, k)` multiplicatively
/// needs only this many steps, by symmetry.
pub open spec fn reduced_k(n: int, k: int) -> int {
    if k <= n - k {
        k
    } else {
        n - k
    }
}

/// One intermediate product of the multiplicative evaluation of a binomial
/// coefficient: the value before the division by `i + 1`.
pub open spec fn step_product(n: int, i: int) -> int {
    binom(n as nat, i as nat) * (n - i)
}

/// The intermediate products of the multiplicative evaluation of
/// `binom(n, kk)` all fit in a `usize`.
pub open spec fn binom_products_fit(n: int, kk: int) -> bool {
    forall|i: int| 0 <= i < kk ==> #[trigger] step_product(n, i) <= usize::MAX
}

/// Calculate the number of combinations `C(n, k)`, saturating instead of
/// overflowing. Where the intermediate products fit in a `usize` the result
/// is exactly the binomial coefficient; `C(n, k) == 0` whenever `k > n`.
pub fn num_combinations(n: usize, k: usize) -> (c: usize)
    ensures
        k > n ==> c == 0,
        k <= n && binom_products_fit(n as int, reduced_k(n as int, k as int)) ==> c == binom(
            n as nat,
            k as nat,
        ),
{
    if k > n {
        return 0;
    }
    if k == 0 || k == n {
        proof {
            lemma_binom_full(n as nat);
        }
        return 1;
    }

    // Optimization: C(n, k) = C(n, n - k)
    let kk = if k < n - k {
        k
    } else {
        n - k
    };
    let mut result: usize = 1;
    let mut i: usize = 0;

    while i < kk
        invariant
            i <= kk,
            0 < kk < n,
            kk == reduced_k(n as int, k as int),
            k < n,
            binom_products_fit(n as int, kk as int) ==> result == binom(n as nat, i as nat),
        decreases kk - i,
    {
        let p = result.saturating_mul(n - i);
        result = p / (i + 1);
        proof {
            if binom_products_fit(n as int, kk as int) {
                assert(step_product(n as int, i as int) <= usize::MAX);
                assert(binom(n as nat, i as nat) * (n - i) <= usize::MAX);
                assert(p == binom(n as nat, i as nat) * (n - i));
                lemma_binom_step(n as nat, i as nat);
                assert(p == binom(n as nat, (i + 1) as nat) * (i + 1));
                lemma_div_multiples_vanish(binom(n as nat, (i + 1) as nat) as int, i + 1);
                assert(((i + 1) * (binom(n as nat, (i + 1) as nat) as int)) / (i + 1) == binom(
                    n as nat,
                    (i + 1) as nat,
                ));
                assert((binom(n as nat, (i + 1) as nat) as int) * (i + 1) == (i + 1) * (binom(
                    n as nat,
                    (i + 1) as nat,
                ) as int)) by (nonlinear_arith);
            }
        }
        i = i + 1;
    }
    proof {
        if binom_products_fit(n as int, kk as int) {
            if k >= n - k {
                lemma_binom_sym(n as nat, k as nat);
            }
        }
    }
    result
}

} // verus!
