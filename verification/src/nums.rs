//! Factorials and binomial coefficients over machine integers.
//!
//! The binomial model needs `C(n, i)` for category counts `i <= n`. The
//! computation uses exact 32-bit integer arithmetic, which caps `n` at 12:
//! `12!` is the largest factorial a `u32` holds. Larger categories are ruled
//! out by precondition rather than risking silent wrap-around.
use vstd::arithmetic::div_mod::lemma_div_multiples_vanish;
use vstd::prelude::*;

verus! {

/// Mathematical factorial.
pub open spec fn spec_factorial(n: nat) -> nat
    decreases n,
{
    if n == 0 {
        1
    } else {
        n * spec_factorial((n - 1) as nat)
    }
}

/// Mathematical binomial coefficient, by Pascal's rule.
pub open spec fn spec_binom(n: nat, k: nat) -> nat
    decreases n, k,
{
    if k == 0 {
        1
    } else if n == 0 {
        0
    } else {
        spec_binom((n - 1) as nat, (k - 1) as nat) + spec_binom((n - 1) as nat, k)
    }
}

/// Factorials are at least 1.
pub proof fn lemma_factorial_pos(n: nat)
    ensures
        spec_factorial(n) >= 1,
    decreases n,
{
    if n > 0 {
        lemma_factorial_pos((n - 1) as nat);
        assert(n * spec_factorial((n - 1) as nat) >= 1) by (nonlinear_arith)
            requires
                n >= 1,
                spec_factorial((n - 1) as nat) >= 1,
        ;
    }
}

/// Factorials do not decrease.
pub proof fn lemma_factorial_le(a: nat, b: nat)
    requires
        a <= b,
    ensures
        spec_factorial(a) <= spec_factorial(b),
    decreases b,
{
    if a < b {
        lemma_factorial_le(a, (b - 1) as nat);
        lemma_factorial_pos((b - 1) as nat);
        assert(spec_factorial((b - 1) as nat) <= b * spec_factorial((b - 1) as nat))
            by (nonlinear_arith)
            requires
                b >= 1,
                spec_factorial((b - 1) as nat) >= 1,
        ;
    }
}

/// Above the diagonal the binomial coefficient is zero.
pub proof fn lemma_binom_above(n: nat, k: nat)
    requires
        k > n,
    ensures
        spec_binom(n, k) == 0,
    decreases n,
{
    if n > 0 {
        lemma_binom_above((n - 1) as nat, (k - 1) as nat);
        lemma_binom_above((n - 1) as nat, k);
    }
}

/// On or below the diagonal the binomial coefficient is positive.
pub proof fn lemma_binom_pos(n: nat, k: nat)
    requires
        k <= n,
    ensures
        spec_binom(n, k) >= 1,
    decreases n,
{
    if k > 0 {
        lemma_binom_pos((n - 1) as nat, (k - 1) as nat);
    }
}

/// The factorial identity for binomial coefficients:
/// `k! * (n-k)! * C(n,k) == n!`.
pub proof fn lemma_binom_factorial(n: nat, k: nat)
    requires
        k <= n,
    ensures
        spec_factorial(k) * spec_factorial((n - k) as nat) * spec_binom(n, k) == spec_factorial(n),
    decreases n,
{
    if k == 0 {
        lemma_factorial_pos(n);
        assert(1 * spec_factorial(n) * 1 == spec_factorial(n)) by (nonlinear_arith);
    } else if k == n {
        lemma_binom_above((n - 1) as nat, k);
        lemma_binom_factorial((n - 1) as nat, (k - 1) as nat);
        // C(n, n) == C(n-1, n-1) == 1 by induction on the identity itself;
        // simpler: show C(n, n) == 1 directly
        lemma_binom_diag(n);
        assert(spec_factorial(n) * 1 * 1 == spec_factorial(n)) by (nonlinear_arith);
        assert(spec_factorial((n - k) as nat) == 1);
    } else {
        // 0 < k < n
        let n1 = (n - 1) as nat;
        let k1 = (k - 1) as nat;
        lemma_binom_factorial(n1, k1);
        lemma_binom_factorial(n1, k);
        let fk = spec_factorial(k);
        let fk1 = spec_factorial(k1);
        let fnk = spec_factorial((n - k) as nat);
        let fnk1 = spec_factorial((n1 - k) as nat);
        let c1 = spec_binom(n1, k1);
        let c2 = spec_binom(n1, k);
        let fn1 = spec_factorial(n1);
        assert((n1 - k1) as nat == (n - k) as nat);
        assert(fk == k * fk1);
        assert(fnk == (n - k) * fnk1);
        assert(spec_binom(n, k) == c1 + c2);
        // fk * fnk * c1 == k * (fk1 * fnk * c1) == k * fn1
        assert(fk * fnk * c1 == k * (fk1 * fnk * c1)) by (nonlinear_arith)
            requires
                fk == k * fk1,
        ;
        assert(fk1 * fnk * c1 == fn1) by (nonlinear_arith)
            requires
                fk1 * fnk * c1 == spec_factorial((n1 - k1) as nat) * fk1 * c1 || fk1
                    * spec_factorial((n1 - k1) as nat) * c1 == fn1,
                fnk == spec_factorial((n1 - k1) as nat),
                fk1 * spec_factorial((n1 - k1) as nat) * c1 == fn1,
        ;
        // fk * fnk * c2 == (n - k) * (fk * fnk1 * c2) == (n - k) * fn1
        assert(fk * fnk * c2 == (n - k) * (fk * fnk1 * c2)) by (nonlinear_arith)
            requires
                fnk == (n - k) * fnk1,
        ;
        assert(fk * fnk1 * c2 == fn1);
        // combine: fk * fnk * (c1 + c2) == (k + (n - k)) * fn1 == n * fn1
        assert(fk * fnk * (c1 + c2) == fk * fnk * c1 + fk * fnk * c2) by (nonlinear_arith);
        assert(k * fn1 + (n - k) * fn1 == n * fn1) by (nonlinear_arith);
        assert(spec_factorial(n) == n * fn1);
    }
}

/// `C(n, n) == 1`.
pub proof fn lemma_binom_diag(n: nat)
    ensures
        spec_binom(n, n) == 1,
    decreases n,
{
    if n > 0 {
        lemma_binom_diag((n - 1) as nat);
        lemma_binom_above((n - 1) as nat, n);
    }
}

/// `12!`, the largest factorial representable in 32 bits.
pub proof fn lemma_factorial_12()
    ensures
        spec_factorial(12) == 479001600,
{
    assert(spec_factorial(0) == 1);
    assert(spec_factorial(1) == 1);
    assert(spec_factorial(2) == 2);
    assert(spec_factorial(3) == 6);
    assert(spec_factorial(4) == 24);
    assert(spec_factorial(5) == 120);
    assert(spec_factorial(6) == 720);
    assert(spec_factorial(7) == 5040);
    assert(spec_factorial(8) == 40320);
    assert(spec_factorial(9) == 362880);
    assert(spec_factorial(10) == 3628800);
    assert(spec_factorial(11) == 39916800);
    assert(spec_factorial(12) == 479001600);
}

/// Iterative factorial. `n` is capped so the product stays within `u32`.
pub fn factorial(n: u32) -> (r: u32)
    requires
        n <= 12,
    ensures
        r == spec_factorial(n as nat),
{
    let mut result: u32 = 1;
    let mut i: u32 = 2;
    proof {
        assert(spec_factorial(0) == 1);
        assert(spec_factorial(1) == 1);
    }
    while i <= n
        invariant
            n <= 12,
            2 <= i <= 13,
            i <= n + 1 || i == 2,
            result == spec_factorial((i - 1) as nat),
        decreases n + 1 - i,
    {
        proof {
            lemma_factorial_le(i as nat, 12);
            lemma_factorial_12();
            assert(spec_factorial(i as nat) == i * spec_factorial((i - 1) as nat));
            assert(result * i == spec_factorial(i as nat)) by (nonlinear_arith)
                requires
                    result == spec_factorial((i - 1) as nat),
                    spec_factorial(i as nat) == i * spec_factorial((i - 1) as nat),
            ;
        }
        result = result * i;
        i = i + 1;
    }
    proof {
        assert(spec_factorial(0) == 1);
        assert(spec_factorial(1) == 1);
    }
    result
}

/// `C(n, r)`, computed from factorials as `n! / (r! * (n-r)!)`.
/// `n` is capped at 12 so every factorial involved fits in `u32`.
pub fn binomial_coeff(n: u32, r: u32) -> (c: u32)
    requires
        r <= n <= 12,
    ensures
        c == spec_binom(n as nat, r as nat),
{
    let fn_ = factorial(n);
    let fr = factorial(r);
    let fnr = factorial(n - r);
    proof {
        lemma_binom_factorial(n as nat, r as nat);
        lemma_binom_pos(n as nat, r as nat);
        lemma_factorial_pos(r as nat);
        lemma_factorial_pos((n - r) as nat);
        let c = spec_binom(n as nat, r as nat);
        let d = spec_factorial(r as nat) * spec_factorial((n - r) as nat);
        assert(d * c == spec_factorial(n as nat) && d >= 1 && d <= spec_factorial(n as nat))
            by (nonlinear_arith)
            requires
                spec_factorial(r as nat) * spec_factorial((n - r) as nat) * c == spec_factorial(
                    n as nat,
                ),
                d == spec_factorial(r as nat) * spec_factorial((n - r) as nat),
                c >= 1,
                spec_factorial(r as nat) >= 1,
                spec_factorial((n - r) as nat) >= 1,
        ;
        lemma_div_multiples_vanish(c as int, d as int);
    }
    fn_ / (fr * fnr)
}

} // verus!
