//! The binomial totality law: the binomial expected-frequency vector sums
//! exactly to the total observed frequency, for every trial count,
//! success probability and total.
//!
//! The heart is the binomial theorem over the integers,
//! `sum_i C(n,i) * a^i * c^(n-i) == (a+c)^n`, proved by induction with
//! Pascal's rule; the fraction-level law lifts it through a common
//! denominator.
use crate::dist::binom_term;
use crate::dist::frac_pow;
use crate::group::int_sum;
use crate::nums::lemma_binom_above;
use crate::nums::spec_binom;
use crate::rat::Frac;
use crate::rat::ipow;
use crate::rat::lemma_ipow_pos;
use crate::rat::frac_add;
use crate::rat::frac_eq;
use crate::rat::frac_from_int;
use crate::rat::frac_sub;
use crate::rat::frac_sum;
use crate::rat::frac_wf;
use crate::rat::lemma_frac_add_congr;
use crate::rat::lemma_frac_eq_trans;
use vstd::prelude::*;

verus! {

/// One integer term of the binomial sum: `C(n,i) * a^i * c^(n-i)`,
/// and zero above the diagonal.
pub open spec fn bterm(n: nat, i: nat, a: int, c: int) -> int {
    if i > n {
        0
    } else {
        (spec_binom(n, i) * ipow(a, i)) * ipow(c, (n - i) as nat)
    }
}

/// The partial binomial sum `sum_{i=0}^{k} C(n,i) * a^i * c^(n-i)`.
pub open spec fn bsum(n: nat, k: nat, a: int, c: int) -> int
    decreases k,
{
    if k == 0 {
        bterm(n, 0, a, c)
    } else {
        bsum(n, (k - 1) as nat, a, c) + bterm(n, k, a, c)
    }
}

/// `x^j * x^k == x^(j+k)`.
proof fn lemma_ipow_add(x: int, j: nat, k: nat)
    ensures
        ipow(x, j) * ipow(x, k) == ipow(x, j + k),
    decreases j,
{
    if j == 0 {
        assert(1 * ipow(x, k) == ipow(x, k)) by (nonlinear_arith);
    } else {
        lemma_ipow_add(x, (j - 1) as nat, k);
        assert((x * ipow(x, (j - 1) as nat)) * ipow(x, k) == x * (ipow(x, (j - 1) as nat) * ipow(
            x,
            k,
        ))) by (nonlinear_arith);
    }
}

/// Extending the partial sum past the diagonal adds nothing.
proof fn lemma_bsum_past_diagonal(n: nat, k: nat, a: int, c: int)
    requires
        k >= n,
    ensures
        bsum(n, k, a, c) == bsum(n, n, a, c),
    decreases k,
{
    if k > n {
        lemma_bsum_past_diagonal(n, (k - 1) as nat, a, c);
        assert(bterm(n, k, a, c) == 0);
    }
}

/// Pascal's rule carried through the sum: one more trial splits every
/// partial sum into an `a`-scaled and a `c`-scaled copy of the smaller one.
proof fn lemma_bsum_split(n: nat, k: nat, a: int, c: int)
    requires
        k <= n + 1,
    ensures
        bsum(n + 1, k, a, c) == (if k == 0 {
            0
        } else {
            a * bsum(n, (k - 1) as nat, a, c)
        }) + c * bsum(n, k, a, c),
    decreases k,
{
    if k == 0 {
        // C(n+1,0) * c^(n+1) == c * (C(n,0) * c^n)
        assert(spec_binom(n + 1, 0) == 1 && spec_binom(n, 0) == 1);
        assert(ipow(c, n + 1) == c * ipow(c, n));
        assert((1int * 1) * (c * ipow(c, n)) == c * ((1int * 1) * ipow(c, n)))
            by (nonlinear_arith);
    } else {
        lemma_bsum_split(n, (k - 1) as nat, a, c);
        let k1 = (k - 1) as nat;
        // split the newest term with Pascal's rule
        if k <= n {
            assert(spec_binom(n + 1, k) == spec_binom(n, k1) + spec_binom(n, k));
        } else {
            // k == n + 1: the second binomial coefficient is zero
            lemma_binom_above(n, k);
            assert(spec_binom(n + 1, k) == spec_binom(n, k1) + spec_binom(n, k));
        }
        let ca = spec_binom(n, k1);
        let cb = spec_binom(n, k);
        // bterm(n+1, k) == a * bterm(n, k-1) + c * bterm(n, k)
        assert(ipow(a, k) == a * ipow(a, k1));
        assert((n + 1 - k) as nat == (n - k1) as nat);
        if k <= n {
            assert(ipow(c, ((n + 1) - k) as nat) == c * ipow(c, (n - k) as nat));
            assert(bterm(n + 1, k, a, c) == ((ca + cb) * (a * ipow(a, k1))) * ipow(
                c,
                (n - k1) as nat,
            ));
            assert(((ca + cb) * (a * ipow(a, k1))) * ipow(c, (n - k1) as nat) == a * ((ca * ipow(
                a,
                k1,
            )) * ipow(c, (n - k1) as nat)) + (cb * (a * ipow(a, k1))) * (c * ipow(
                c,
                (n - k) as nat,
            ))) by (nonlinear_arith)
                requires
                    ipow(c, (n - k1) as nat) == c * ipow(c, (n - k) as nat),
            ;
            assert((cb * (a * ipow(a, k1))) * (c * ipow(c, (n - k) as nat)) == c * ((cb * ipow(
                a,
                k,
            )) * ipow(c, (n - k) as nat))) by (nonlinear_arith)
                requires
                    ipow(a, k) == a * ipow(a, k1),
            ;
            assert(bterm(n + 1, k, a, c) == a * bterm(n, k1, a, c) + c * bterm(n, k, a, c));
        } else {
            // k == n + 1: the c-scaled term vanishes
            assert(bterm(n, k, a, c) == 0);
            assert(bterm(n + 1, k, a, c) == ((ca + cb) * (a * ipow(a, k1))) * ipow(c, 0));
            assert(cb == 0);
            assert(((ca + 0) * (a * ipow(a, k1))) * 1 == a * ((ca * ipow(a, k1)) * 1))
                by (nonlinear_arith);
            assert(bterm(n + 1, k, a, c) == a * bterm(n, k1, a, c) + c * bterm(n, k, a, c));
        }
        // fold the scaled sums back together
        if k1 == 0 {
            assert(bsum(n + 1, k, a, c) == c * bsum(n, k1, a, c) + (a * bterm(n, k1, a, c) + c
                * bterm(n, k, a, c)));
            assert(c * bsum(n, k1, a, c) + (a * bterm(n, k1, a, c) + c * bterm(n, k, a, c)) == a
                * bsum(n, k1, a, c) + c * (bsum(n, k1, a, c) + bterm(n, k, a, c)))
                by (nonlinear_arith)
                requires
                    bsum(n, 0, a, c) == bterm(n, 0, a, c),
                    k1 == 0,
            ;
        } else {
            assert(bsum(n + 1, k, a, c) == (a * bsum(n, (k1 - 1) as nat, a, c) + c * bsum(
                n,
                k1,
                a,
                c,
            )) + (a * bterm(n, k1, a, c) + c * bterm(n, k, a, c)));
            assert((a * bsum(n, (k1 - 1) as nat, a, c) + c * bsum(n, k1, a, c)) + (a * bterm(
                n,
                k1,
                a,
                c,
            ) + c * bterm(n, k, a, c)) == a * (bsum(n, (k1 - 1) as nat, a, c) + bterm(
                n,
                k1,
                a,
                c,
            )) + c * (bsum(n, k1, a, c) + bterm(n, k, a, c))) by (nonlinear_arith);
            assert(bsum(n, k1, a, c) == bsum(n, (k1 - 1) as nat, a, c) + bterm(n, k1, a, c));
        }
    }
}

/// The binomial theorem over the integers:
/// `sum_{i=0}^{n} C(n,i) * a^i * c^(n-i) == (a+c)^n`.
pub proof fn lemma_binomial_theorem_int(n: nat, a: int, c: int)
    ensures
        bsum(n, n, a, c) == ipow(a + c, n),
    decreases n,
{
    if n == 0 {
        assert(bsum(0, 0, a, c) == (1int * 1) * 1);
    } else {
        let m = (n - 1) as nat;
        lemma_binomial_theorem_int(m, a, c);
        lemma_bsum_split(m, n, a, c);
        lemma_bsum_past_diagonal(m, n, a, c);
        assert(bsum(n, n, a, c) == a * bsum(m, m, a, c) + c * bsum(m, m, a, c));
        assert(a * bsum(m, m, a, c) + c * bsum(m, m, a, c) == (a + c) * bsum(m, m, a, c))
            by (nonlinear_arith);
        assert(ipow(a + c, n) == (a + c) * ipow(a + c, m));
    }
}


/// The parts of a fraction power are the powers of its parts.
proof fn lemma_frac_pow_parts(b: Frac, k: nat)
    ensures
        frac_pow(b, k).num == ipow(b.num, k),
        frac_pow(b, k).den == ipow(b.den, k),
    decreases k,
{
    if k > 0 {
        lemma_frac_pow_parts(b, (k - 1) as nat);
        assert(ipow(b.num, (k - 1) as nat) * b.num == b.num * ipow(b.num, (k - 1) as nat))
            by (nonlinear_arith);
        assert(ipow(b.den, (k - 1) as nat) * b.den == b.den * ipow(b.den, (k - 1) as nat))
            by (nonlinear_arith);
    }
}

/// Every binomial term equals, as a value, an integer term over the shared
/// denominator `p.den^n * total.den`.
proof fn lemma_binom_term_common_den(n: nat, i: nat, p: Frac, total: Frac)
    requires
        i <= n,
        frac_wf(p),
        frac_wf(total),
    ensures
        frac_eq(
            binom_term(n, i, p, total),
            (Frac {
                num: bterm(n, i, p.num, p.den - p.num) * total.num,
                den: ipow(p.den, n) * total.den,
            }),
        ),
{
    let a = p.num;
    let b = p.den;
    let c = b - a;
    let q = frac_sub(frac_from_int(1), p);
    assert(q.num == c && q.den == b);
    lemma_frac_pow_parts(p, i);
    lemma_frac_pow_parts(q, (n - i) as nat);
    let t = binom_term(n, i, p, total);
    assert(t.num == ((spec_binom(n, i) * ipow(a, i)) * ipow(c, (n - i) as nat)) * total.num);
    assert(t.den == ((1 * ipow(b, i)) * ipow(b, (n - i) as nat)) * total.den);
    lemma_ipow_add(b, i, (n - i) as nat);
    assert(t.num == bterm(n, i, a, c) * total.num);
    assert(t.num * (ipow(b, n) * total.den) == (bterm(n, i, a, c) * total.num) * t.den)
        by (nonlinear_arith)
        requires
            t.num == bterm(n, i, a, c) * total.num,
            t.den == ((1 * ipow(b, i)) * ipow(b, (n - i) as nat)) * total.den,
            ipow(b, i) * ipow(b, (n - i) as nat) == ipow(b, n),
    ;
}

/// A sum of fractions that all share one positive denominator is the
/// fraction of the summed numerators over it.
proof fn lemma_sum_common_den(s: Seq<Frac>, nums: Seq<int>, den: int)
    requires
        s.len() == nums.len(),
        den > 0,
        forall|i: int| 0 <= i < s.len() ==> frac_eq(#[trigger] s[i], (Frac { num: nums[i], den: den })),
    ensures
        frac_eq(frac_sum(s), (Frac { num: int_sum(nums), den: den })),
    decreases s.len(),
{
    if s.len() == 0 {
        assert(0 * den == 0 * 1) by (nonlinear_arith);
    } else {
        let sd = s.drop_last();
        let nd = nums.drop_last();
        assert(forall|i: int| 0 <= i < sd.len() ==> sd[i] == s[i] && nd[i] == nums[i]);
        lemma_sum_common_den(sd, nd, den);
        let spart = Frac { num: int_sum(nd), den: den };
        let xpart = Frac { num: nums.last(), den: den };
        lemma_frac_add_congr(frac_sum(sd), spart, s.last(), xpart);
        let mid = frac_add(spart, xpart);
        assert(mid.num == int_sum(nd) * den + nums.last() * den);
        assert(mid.den == den * den);
        assert(mid.num * den == (int_sum(nd) + nums.last()) * (den * den)) by (nonlinear_arith)
            requires
                mid.num == int_sum(nd) * den + nums.last() * den,
        ;
        assert(frac_eq(mid, (Frac { num: int_sum(nums), den: den })));
        assert(mid.den > 0) by (nonlinear_arith)
            requires
                den > 0,
                mid.den == den * den,
        ;
        lemma_frac_eq_trans(frac_sum(s), mid, (Frac { num: int_sum(nums), den: den }));
    }
}

/// Summing the scaled integer terms along the category range gives the
/// scaled partial binomial sum.
proof fn lemma_int_sum_terms(n: nat, k: nat, a: int, c: int, scale: int)
    ensures
        int_sum(Seq::new((k + 1) as nat, |i: int| bterm(n, i as nat, a, c) * scale)) == bsum(
            n,
            k,
            a,
            c,
        ) * scale,
    decreases k,
{
    let f = |i: int| bterm(n, i as nat, a, c) * scale;
    let cur = Seq::new((k + 1) as nat, f);
    if k == 0 {
        assert(cur.drop_last() =~= Seq::<int>::empty());
        assert(int_sum(Seq::<int>::empty()) == 0);
        assert(cur.last() == cur[0]);
        assert(cur[0] == f(0));
        assert(f(0) == bterm(n, 0, a, c) * scale);
        assert(int_sum(cur) == 0 + bterm(n, 0, a, c) * scale);
    } else {
        lemma_int_sum_terms(n, (k - 1) as nat, a, c, scale);
        let prev = Seq::new(k as nat, f);
        assert(cur.drop_last() =~= prev);
        assert(cur.last() == f(k as int));
        assert(bsum(n, (k - 1) as nat, a, c) * scale + bterm(n, k, a, c) * scale == (bsum(
            n,
            (k - 1) as nat,
            a,
            c,
        ) + bterm(n, k, a, c)) * scale) by (nonlinear_arith);
    }
}

/// The binomial totality law: for every trial count `n`, success
/// probability `p` and total `total`, the binomial expected-frequency
/// vector sums exactly to `total`.
pub proof fn lemma_binomial_expecteds_sum_to_total(n: nat, p: Frac, total: Frac)
    requires
        frac_wf(p),
        frac_wf(total),
    ensures
        frac_eq(
            frac_sum(Seq::new((n + 1) as nat, |i: int| binom_term(n, i as nat, p, total))),
            total,
        ),
{
    let a = p.num;
    let b = p.den;
    let c = b - a;
    let ts = Seq::new((n + 1) as nat, |i: int| binom_term(n, i as nat, p, total));
    let ns = Seq::new((n + 1) as nat, |i: int| bterm(n, i as nat, a, c) * total.num);
    lemma_ipow_pos(b, n);
    let den = ipow(b, n) * total.den;
    assert(den > 0) by (nonlinear_arith)
        requires
            ipow(b, n) > 0,
            total.den > 0,
            den == ipow(b, n) * total.den,
    ;
    assert forall|i: int| 0 <= i < ts.len() implies frac_eq(
        #[trigger] ts[i],
        (Frac { num: ns[i], den: den }),
    ) by {
        lemma_binom_term_common_den(n, i as nat, p, total);
    }
    lemma_sum_common_den(ts, ns, den);
    lemma_int_sum_terms(n, n, a, c, total.num);
    lemma_binomial_theorem_int(n, a, c);
    assert(a + c == b);
    assert(int_sum(ns) == ipow(b, n) * total.num) by (nonlinear_arith)
        requires
            int_sum(ns) == bsum(n, n, a, c) * total.num,
            bsum(n, n, a, c) == ipow(b, n),
    ;
    // the summed fraction reduces to the total itself
    assert(frac_eq((Frac { num: int_sum(ns), den: den }), total)) by (nonlinear_arith)
        requires
            int_sum(ns) == ipow(b, n) * total.num,
            den == ipow(b, n) * total.den,
    ;
    lemma_frac_eq_trans(
        frac_sum(ts),
        (Frac { num: int_sum(ns), den: den }),
        total,
    );
}

} // verus!
