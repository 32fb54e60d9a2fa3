//! The distribution engine: expected-frequency vectors for the binomial and
//! Poisson models, parameter estimation from observed data, and the
//! model-fitting flows that carry a validated observed vector all the way to
//! the chi-squared statistic.
use crate::chi::StatError;
use crate::chi::chi_sum;
use crate::chi::evaluate;
use crate::group::group_expecteds;
use crate::group::group_observed;
use crate::group::grouped_ok;
use crate::group::int_sum;
use crate::group::int_views;
use crate::group::sum_i32_range;
use crate::nums::binomial_coeff;
use crate::nums::factorial;
use crate::nums::lemma_factorial_pos;
use crate::nums::spec_binom;
use crate::nums::spec_factorial;
use crate::rat::Frac;
use crate::rat::Rat;
use crate::rat::frac_add;
use crate::rat::frac_div;
use crate::rat::frac_eq;
use crate::rat::frac_from_int;
use crate::rat::frac_mul;
use crate::rat::frac_sub;
use crate::rat::frac_sum;
use crate::rat::frac_wf;
use crate::rat::int_abs;
use crate::rat::int_to_fracs;
use crate::rat::lemma_frac_add_congr;
use crate::rat::lemma_frac_add_zero;
use crate::rat::lemma_frac_eq_trans;
use crate::rat::lemma_frac_mul_congr;
use crate::rat::lemma_frac_ops_wf;
use crate::rat::lemma_frac_sub_congr;
use crate::rat::lemma_frac_sum_wf;
use crate::rat::rat_views;
use vstd::prelude::*;

verus! {

/// A model parameter: supplied outright, or to be estimated from the data.
pub enum BinomialP {
    P(Rat),
    Estimate,
}

/// The Poisson mean: supplied outright, or to be estimated from the data.
pub enum PoissonMean {
    Mean(Rat),
    Estimate,
}

/// `b^k` over fractions.
pub open spec fn frac_pow(b: Frac, k: nat) -> Frac
    decreases k,
{
    if k == 0 {
        frac_from_int(1)
    } else {
        frac_mul(frac_pow(b, (k - 1) as nat), b)
    }
}

/// Powers of well-formed fractions are well-formed.
pub proof fn lemma_frac_pow_wf(b: Frac, k: nat)
    requires
        frac_wf(b),
    ensures
        frac_wf(frac_pow(b, k)),
    decreases k,
{
    if k > 0 {
        lemma_frac_pow_wf(b, (k - 1) as nat);
        lemma_frac_ops_wf(frac_pow(b, (k - 1) as nat), b);
    }
}

/// The expected count of binomial category `i`:
/// `C(n,i) * p^i * (1-p)^(n-i) * N`.
pub open spec fn binom_term(n: nat, i: nat, p: Frac, total: Frac) -> Frac {
    frac_mul(
        frac_mul(
            frac_mul(frac_from_int(spec_binom(n, i) as int), frac_pow(p, i)),
            frac_pow(frac_sub(frac_from_int(1), p), (n - i) as nat),
        ),
        total,
    )
}

/// The expected count of Poisson category `i` (below the final category):
/// `N * e^(-lambda) * lambda^i / i!`, with `x` standing for `e^(-lambda)`.
pub open spec fn poisson_term(i: nat, mean: Frac, x: Frac, total: Frac) -> Frac {
    frac_mul(
        frac_mul(total, x),
        frac_div(frac_pow(mean, i), frac_from_int(spec_factorial(i) as int)),
    )
}

/// `base^k`, exactly; `None` means the result cannot be represented. A
/// power of a whole number in `[-1, 1]` is always owed, and stays whole
/// and in `[-1, 1]`.
fn rat_pow(base: &Rat, k: usize) -> (r: Option<Rat>)
    requires
        base.wf(),
    ensures
        r is Some ==> r.unwrap().wf() && frac_eq(r.unwrap()@, frac_pow(base@, k as nat)),
        base@.den == 1 && -1 <= base@.num <= 1 ==> r is Some && r.unwrap()@.den == 1 && -1
            <= r.unwrap()@.num <= 1,
{
    let ghost unit = base@.den == 1 && -1 <= base@.num <= 1;
    let mut acc = Rat::from_int(1);
    let mut j: usize = 0;
    while j < k
        invariant
            j <= k,
            base.wf(),
            acc.wf(),
            frac_eq(acc@, frac_pow(base@, j as nat)),
            unit == (base@.den == 1 && -1 <= base@.num <= 1),
            unit ==> acc@.den == 1 && -1 <= acc@.num <= 1,
        decreases k - j,
    {
        proof {
            if unit {
                assert(frac_mul(acc@, base@).den == 1 && -1 <= frac_mul(acc@, base@).num <= 1)
                    by (nonlinear_arith)
                    requires
                        frac_mul(acc@, base@).num == acc@.num * base@.num,
                        frac_mul(acc@, base@).den == acc@.den * base@.den,
                        acc@.den == 1,
                        base@.den == 1,
                        -1 <= acc@.num <= 1,
                        -1 <= base@.num <= 1,
                ;
            }
        }
        let acc2 = match acc.mul(base) {
            Some(x) => x,
            None => {
                proof {
                    if unit {
                        assert(false);
                    }
                }
                return None;
            },
        };
        proof {
            lemma_frac_pow_wf(base@, j as nat);
            lemma_frac_mul_congr(acc@, frac_pow(base@, j as nat), base@, base@);
            lemma_frac_ops_wf(acc@, base@);
            lemma_frac_eq_trans(
                acc2@,
                frac_mul(acc@, base@),
                frac_mul(frac_pow(base@, j as nat), base@),
            );
        }
        acc = acc2;
        j = j + 1;
    }
    Some(acc)
}

/// A parameter set on which the binomial vector is owed: at most two
/// trials, a whole-number probability (the degenerate certain or
/// impossible coin), and a whole total of moderate size. A conservative
/// worst-case bound on the exact arithmetic, ignoring reduction.
pub open spec fn binom_whole_inputs(n: int, p: Frac, total: Frac) -> bool {
    &&& n <= 2
    &&& p.den == 1
    &&& 0 <= p.num <= 1
    &&& total.den == 1
    &&& -0xFFFF <= total.num <= 0xFFFF
}

/// The binomial expected-frequency vector: entry `i` is
/// `C(n,i) * p^i * (1-p)^(n-i) * N` for `i` in `0..=n`.
///
/// `n` is capped at 12 by the exact 32-bit coefficient computation.
pub fn binomial_expecteds(n: usize, p: &Rat, freq_sum: &Rat) -> (r: Result<Vec<Rat>, StatError>)
    requires
        n <= 12,
        p.wf(),
        freq_sum.wf(),
    ensures
        r is Ok ==> {
            let v = r.unwrap();
            &&& v.len() == n + 1
            &&& (forall|i: int|
                0 <= i <= n ==> (#[trigger] v[i]).wf() && frac_eq(
                    v[i]@,
                    binom_term(n as nat, i as nat, p@, freq_sum@),
                ))
        },
        r is Err ==> r == Err::<Vec<Rat>, StatError>(StatError::Overflow),
        binom_whole_inputs(n as int, p@, freq_sum@) ==> r is Ok && (forall|i: int|
            0 <= i <= n ==> (#[trigger] r.unwrap()[i])@.den == 1 && int_abs(r.unwrap()[i]@.num)
                <= 0x4000_0000),
{
    let ghost whole = binom_whole_inputs(n as int, p@, freq_sum@);
    let one = Rat::from_int(1);
    proof {
        if whole {
            assert(frac_sub(frac_from_int(1), p@).den == 1 * p@.den);
            assert(frac_sub(frac_from_int(1), p@).num == 1 * p@.den - p@.num * 1);
            assert(frac_sub(frac_from_int(1), p@).den == 1);
            assert(-1 <= frac_sub(frac_from_int(1), p@).num <= 1);
        }
    }
    let q = match one.sub(p) {
        Some(x) => x,
        None => {
            proof {
                if whole {
                    assert(false);
                }
            }
            return Err(StatError::Overflow);
        },
    };
    let mut v: Vec<Rat> = Vec::new();
    let mut i: usize = 0;
    while i <= n
        invariant
            i <= n + 1,
            n <= 12,
            p.wf(),
            freq_sum.wf(),
            q.wf(),
            frac_eq(q@, frac_sub(frac_from_int(1), p@)),
            whole == binom_whole_inputs(n as int, p@, freq_sum@),
            whole ==> q@.den == 1 && -1 <= q@.num <= 1,
            v.len() == i,
            forall|j: int|
                0 <= j < i ==> (#[trigger] v[j]).wf() && frac_eq(
                    v[j]@,
                    binom_term(n as nat, j as nat, p@, freq_sum@),
                ),
            whole ==> (forall|j: int|
                0 <= j < i ==> (#[trigger] v[j])@.den == 1 && int_abs(v[j]@.num) <= 0x4000_0000),
        decreases n + 1 - i,
    {
        let c = binomial_coeff(n as u32, i as u32);
        proof {
            if whole {
                // with at most two trials the coefficients are at most 2
                assert(spec_binom(0, 0) == 1);
                assert(spec_binom(0, 1) == 0);
                assert(spec_binom(0, 2) == 0);
                assert(spec_binom(1, 0) == 1);
                assert(spec_binom(1, 1) == spec_binom(0, 0) + spec_binom(0, 1));
                assert(spec_binom(1, 2) == spec_binom(0, 1) + spec_binom(0, 2));
                assert(spec_binom(2, 0) == 1);
                assert(spec_binom(2, 1) == spec_binom(1, 0) + spec_binom(1, 1));
                assert(spec_binom(2, 2) == spec_binom(1, 1) + spec_binom(1, 2));
                assert(c <= 2);
            }
        }
        let cr = Rat::from_int(c as i64);
        let p_pow = match rat_pow(p, i) {
            Some(x) => x,
            None => {
                proof {
                    if whole {
                        assert(false);
                    }
                }
                return Err(StatError::Overflow);
            },
        };
        let q_pow = match rat_pow(&q, n - i) {
            Some(x) => x,
            None => {
                proof {
                    if whole {
                        assert(false);
                    }
                }
                return Err(StatError::Overflow);
            },
        };
        proof {
            if whole {
                assert(frac_mul(cr@, p_pow@).den == 1 && -2 <= frac_mul(cr@, p_pow@).num <= 2)
                    by (nonlinear_arith)
                    requires
                        frac_mul(cr@, p_pow@).num == cr@.num * p_pow@.num,
                        frac_mul(cr@, p_pow@).den == cr@.den * p_pow@.den,
                        cr@.den == 1,
                        p_pow@.den == 1,
                        0 <= cr@.num <= 2,
                        -1 <= p_pow@.num <= 1,
                ;
            }
        }
        let m1 = match cr.mul(&p_pow) {
            Some(x) => x,
            None => {
                proof {
                    if whole {
                        assert(false);
                    }
                }
                return Err(StatError::Overflow);
            },
        };
        proof {
            if whole {
                assert(frac_mul(m1@, q_pow@).den == 1 && -2 <= frac_mul(m1@, q_pow@).num <= 2)
                    by (nonlinear_arith)
                    requires
                        frac_mul(m1@, q_pow@).num == m1@.num * q_pow@.num,
                        frac_mul(m1@, q_pow@).den == m1@.den * q_pow@.den,
                        m1@.den == 1,
                        q_pow@.den == 1,
                        -2 <= m1@.num <= 2,
                        -1 <= q_pow@.num <= 1,
                ;
            }
        }
        let m2 = match m1.mul(&q_pow) {
            Some(x) => x,
            None => {
                proof {
                    if whole {
                        assert(false);
                    }
                }
                return Err(StatError::Overflow);
            },
        };
        proof {
            if whole {
                assert(frac_mul(m2@, freq_sum@).den == 1 && -0x2_0000 <= frac_mul(
                    m2@,
                    freq_sum@,
                ).num <= 0x2_0000) by (nonlinear_arith)
                    requires
                        frac_mul(m2@, freq_sum@).num == m2@.num * freq_sum@.num,
                        frac_mul(m2@, freq_sum@).den == m2@.den * freq_sum@.den,
                        m2@.den == 1,
                        freq_sum@.den == 1,
                        -2 <= m2@.num <= 2,
                        -0xFFFF <= freq_sum@.num <= 0xFFFF,
                ;
            }
        }
        let m3 = match m2.mul(freq_sum) {
            Some(x) => x,
            None => {
                proof {
                    if whole {
                        assert(false);
                    }
                }
                return Err(StatError::Overflow);
            },
        };
        proof {
            let pn = frac_pow(p@, i as nat);
            let qn = frac_pow(frac_sub(frac_from_int(1), p@), (n - i) as nat);
            lemma_frac_pow_wf(p@, i as nat);
            lemma_frac_ops_wf(frac_from_int(1), p@);
            lemma_frac_pow_wf(frac_sub(frac_from_int(1), p@), (n - i) as nat);
            lemma_frac_pow_wf(q@, (n - i) as nat);
            // m1 is, as a value, C(n,i) * p^i
            lemma_frac_mul_congr(cr@, cr@, p_pow@, pn);
            lemma_frac_ops_wf(cr@, p_pow@);
            lemma_frac_eq_trans(m1@, frac_mul(cr@, p_pow@), frac_mul(cr@, pn));
            // q_pow is, as a value, (1-p)^(n-i)
            proof_pow_congr(q@, frac_sub(frac_from_int(1), p@), (n - i) as nat);
            lemma_frac_eq_trans(q_pow@, frac_pow(q@, (n - i) as nat), qn);
            // m2 is, as a value, C(n,i) * p^i * (1-p)^(n-i)
            lemma_frac_mul_congr(m1@, frac_mul(cr@, pn), q_pow@, qn);
            lemma_frac_ops_wf(m1@, q_pow@);
            lemma_frac_ops_wf(frac_mul(cr@, pn), qn);
            lemma_frac_eq_trans(
                m2@,
                frac_mul(m1@, q_pow@),
                frac_mul(frac_mul(cr@, pn), qn),
            );
            // m3 is, as a value, the binomial term
            lemma_frac_mul_congr(m2@, frac_mul(frac_mul(cr@, pn), qn), freq_sum@, freq_sum@);
            lemma_frac_ops_wf(m2@, freq_sum@);
            lemma_frac_eq_trans(
                m3@,
                frac_mul(m2@, freq_sum@),
                binom_term(n as nat, i as nat, p@, freq_sum@),
            );
        }
        v.push(m3);
        i = i + 1;
    }
    Ok(v)
}

/// Powers respect value equality.
proof fn proof_pow_congr(a: Frac, b: Frac, k: nat)
    requires
        frac_wf(a),
        frac_wf(b),
        frac_eq(a, b),
    ensures
        frac_eq(frac_pow(a, k), frac_pow(b, k)),
    decreases k,
{
    if k > 0 {
        proof_pow_congr(a, b, (k - 1) as nat);
        lemma_frac_mul_congr(frac_pow(a, (k - 1) as nat), frac_pow(b, (k - 1) as nat), a, b);
    }
}

/// A parameter set on which the Poisson vector is owed: at most three
/// categories, a whole-number mean and exponential stand-in in `[0, 1]`,
/// and a whole total of moderate size. A conservative worst-case bound on
/// the exact arithmetic, ignoring reduction.
pub open spec fn poisson_whole_inputs(columns: int, mean: Frac, x: Frac, total: Frac) -> bool {
    &&& columns <= 3
    &&& mean.den == 1
    &&& 0 <= mean.num <= 1
    &&& x.den == 1
    &&& 0 <= x.num <= 1
    &&& total.den == 1
    &&& -0xFFFF <= total.num <= 0xFFFF
}

/// The Poisson expected-frequency vector over `columns` categories: entry
/// `i` below the last is `N * x * lambda^i / i!` with `x` standing for
/// `e^(-lambda)`; the final category absorbs the remainder `N - sum of the
/// others`, so the whole vector sums exactly to `N`.
///
/// `columns` is capped at 14 by the exact 32-bit factorial.
pub fn poisson_expecteds(mean: &Rat, exp_neg_mean: &Rat, freq_sum: &Rat, columns: usize) -> (r:
    Result<Vec<Rat>, StatError>)
    requires
        1 <= columns <= 14,
        mean.wf(),
        exp_neg_mean.wf(),
        freq_sum.wf(),
    ensures
        r is Ok ==> {
            let v = r.unwrap();
            &&& v.len() == columns
            &&& (forall|i: int|
                0 <= i < columns - 1 ==> (#[trigger] v[i]).wf() && frac_eq(
                    v[i]@,
                    poisson_term(i as nat, mean@, exp_neg_mean@, freq_sum@),
                ))
            &&& v[columns - 1].wf()
            &&& frac_eq(
                v[columns - 1]@,
                frac_sub(freq_sum@, frac_sum(rat_views(v@).take(columns - 1))),
            )
        },
        r is Err ==> r == Err::<Vec<Rat>, StatError>(StatError::Overflow),
        poisson_whole_inputs(columns as int, mean@, exp_neg_mean@, freq_sum@) ==> r is Ok && (
        forall|i: int|
            0 <= i < columns ==> (#[trigger] r.unwrap()[i])@.den == 1 && int_abs(
                r.unwrap()[i]@.num,
            ) <= 0x4000_0000),
{
    let ghost whole = poisson_whole_inputs(columns as int, mean@, exp_neg_mean@, freq_sum@);
    let mut v: Vec<Rat> = Vec::new();
    let mut i: usize = 0;
    let mut partial = Rat::from_int(0);
    while i < columns - 1
        invariant
            i <= columns - 1,
            1 <= columns <= 14,
            mean.wf(),
            exp_neg_mean.wf(),
            freq_sum.wf(),
            whole == poisson_whole_inputs(columns as int, mean@, exp_neg_mean@, freq_sum@),
            v.len() == i,
            forall|j: int|
                0 <= j < i ==> (#[trigger] v[j]).wf() && frac_eq(
                    v[j]@,
                    poisson_term(j as nat, mean@, exp_neg_mean@, freq_sum@),
                ),
            whole ==> (forall|j: int|
                0 <= j < i ==> (#[trigger] v[j])@.den == 1 && -0xFFFF <= v[j]@.num <= 0xFFFF),
            partial.wf(),
            frac_eq(partial@, frac_sum(rat_views(v@))),
            whole ==> partial@.den == 1 && -(i * 0xFFFF) <= partial@.num <= i * 0xFFFF,
        decreases columns - i,
    {
        let f = factorial(i as u32);
        proof {
            lemma_factorial_pos(i as nat);
            if whole {
                // below the cap the factorial is exactly 1
                assert(spec_factorial(0) == 1);
                assert(spec_factorial(1) == 1);
                assert(f == 1);
            }
        }
        let fr = Rat::from_int(f as i64);
        let m_pow = match rat_pow(mean, i) {
            Some(x) => x,
            None => {
                proof {
                    if whole {
                        assert(false);
                    }
                }
                return Err(StatError::Overflow);
            },
        };
        proof {
            if whole {
                assert(frac_div(m_pow@, fr@).num == m_pow@.num * 1);
                assert(frac_div(m_pow@, fr@).den == m_pow@.den * 1);
            }
        }
        let ratio = match m_pow.div(&fr) {
            Some(x) => x,
            None => {
                proof {
                    if whole {
                        assert(false);
                    }
                }
                return Err(StatError::Overflow);
            },
        };
        proof {
            if whole {
                assert(ratio@.den == 1);
                assert(-1 <= ratio@.num <= 1);
                assert(frac_mul(freq_sum@, exp_neg_mean@).den == 1 && -0xFFFF <= frac_mul(
                    freq_sum@,
                    exp_neg_mean@,
                ).num <= 0xFFFF) by (nonlinear_arith)
                    requires
                        frac_mul(freq_sum@, exp_neg_mean@).num == freq_sum@.num
                            * exp_neg_mean@.num,
                        frac_mul(freq_sum@, exp_neg_mean@).den == freq_sum@.den
                            * exp_neg_mean@.den,
                        freq_sum@.den == 1,
                        exp_neg_mean@.den == 1,
                        -0xFFFF <= freq_sum@.num <= 0xFFFF,
                        0 <= exp_neg_mean@.num <= 1,
                ;
            }
        }
        let nx = match freq_sum.mul(exp_neg_mean) {
            Some(x) => x,
            None => {
                proof {
                    if whole {
                        assert(false);
                    }
                }
                return Err(StatError::Overflow);
            },
        };
        proof {
            if whole {
                assert(frac_mul(nx@, ratio@).den == 1 && -0xFFFF <= frac_mul(nx@, ratio@).num
                    <= 0xFFFF) by (nonlinear_arith)
                    requires
                        frac_mul(nx@, ratio@).num == nx@.num * ratio@.num,
                        frac_mul(nx@, ratio@).den == nx@.den * ratio@.den,
                        nx@.den == 1,
                        ratio@.den == 1,
                        -0xFFFF <= nx@.num <= 0xFFFF,
                        -1 <= ratio@.num <= 1,
                ;
            }
        }
        let term = match nx.mul(&ratio) {
            Some(x) => x,
            None => {
                proof {
                    if whole {
                        assert(false);
                    }
                }
                return Err(StatError::Overflow);
            },
        };
        proof {
            if whole {
                assert(term@.den == 1);
                assert(-0xFFFF <= term@.num <= 0xFFFF);
                assert(frac_add(partial@, term@).num == partial@.num * 1 + term@.num * 1);
                assert(frac_add(partial@, term@).den == partial@.den * 1);
                assert(frac_add(partial@, term@).den == 1);
                assert(-((i + 1) * 0xFFFF) <= frac_add(partial@, term@).num <= (i + 1) * 0xFFFF);
            }
        }
        let partial2 = match partial.add(&term) {
            Some(x) => x,
            None => {
                proof {
                    if whole {
                        assert(false);
                    }
                }
                return Err(StatError::Overflow);
            },
        };
        proof {
            let mp = frac_pow(mean@, i as nat);
            lemma_frac_pow_wf(mean@, i as nat);
            // ratio is, as a value, lambda^i / i!
            lemma_frac_div_congr_local(m_pow@, mp, fr@);
            lemma_frac_ops_wf(m_pow@, fr@);
            lemma_frac_eq_trans(ratio@, frac_div(m_pow@, fr@), frac_div(mp, fr@));
            // term is, as a value, (N * x) * (lambda^i / i!)
            lemma_frac_ops_wf(mp, fr@);
            lemma_frac_ops_wf(freq_sum@, exp_neg_mean@);
            lemma_frac_mul_congr(nx@, frac_mul(freq_sum@, exp_neg_mean@), ratio@, frac_div(mp, fr@));
            lemma_frac_ops_wf(nx@, ratio@);
            lemma_frac_ops_wf(frac_mul(freq_sum@, exp_neg_mean@), frac_div(mp, fr@));
            lemma_frac_eq_trans(
                term@,
                frac_mul(nx@, ratio@),
                poisson_term(i as nat, mean@, exp_neg_mean@, freq_sum@),
            );
            // the partial sum follows the vector
            let rv = rat_views(v@);
            let rv2 = rat_views(v@.push(term));
            assert(rv2.drop_last() =~= rv);
            assert(rv2.last() == term@);
            lemma_frac_sum_wf_views(v@);
            lemma_frac_add_congr(partial@, frac_sum(rv), term@, term@);
            lemma_frac_ops_wf(partial@, term@);
            lemma_frac_eq_trans(partial2@, frac_add(partial@, term@), frac_sum(rv2));
        }
        v.push(term);
        partial = partial2;
        i = i + 1;
    }
    proof {
        if whole {
            assert(frac_sub(freq_sum@, partial@).den == 1);
            assert(-(3 * 0xFFFF) <= frac_sub(freq_sum@, partial@).num <= 3 * 0xFFFF);
        }
    }
    let last = match freq_sum.sub(&partial) {
        Some(x) => x,
        None => {
            proof {
                if whole {
                    assert(false);
                }
            }
            return Err(StatError::Overflow);
        },
    };
    proof {
        let rv = rat_views(v@);
        lemma_frac_sum_wf_views(v@);
        lemma_frac_sub_congr(freq_sum@, freq_sum@, partial@, frac_sum(rv));
        lemma_frac_ops_wf(freq_sum@, partial@);
        lemma_frac_eq_trans(last@, frac_sub(freq_sum@, partial@), frac_sub(freq_sum@, frac_sum(rv)));
        assert(rat_views(v@.push(last)).take(columns - 1) =~= rv);
    }
    v.push(last);
    Ok(v)
}

/// Division respects value equality in its left operand.
proof fn lemma_frac_div_congr_local(a: Frac, a2: Frac, b: Frac)
    requires
        frac_eq(a, a2),
    ensures
        frac_eq(frac_div(a, b), frac_div(a2, b)),
{
    crate::rat::lemma_frac_div_congr(a, a2, b, b);
}

/// The sum of the views of a vector of well-formed rationals is
/// well-formed.
proof fn lemma_frac_sum_wf_views(v: Seq<Rat>)
    requires
        forall|i: int| 0 <= i < v.len() ==> (#[trigger] v[i]).wf(),
    ensures
        frac_wf(frac_sum(rat_views(v))),
{
    let rv = rat_views(v);
    assert(forall|i: int| 0 <= i < rv.len() ==> frac_wf(#[trigger] rv[i]));
    lemma_frac_sum_wf(rv);
}

/// With `lambda == 0` (and `x` standing exactly for `e^0 == 1`) the
/// expected vector concentrates entirely in category 0: the first entry is
/// `N`, every later entry — the remainder-absorbing last one included — is
/// zero.
pub proof fn lemma_poisson_lambda_zero(v: Seq<Frac>, mean: Frac, x: Frac, total: Frac, columns: int)
    requires
        v.len() == columns,
        columns >= 1,
        forall|i: int| 0 <= i < v.len() ==> frac_wf(#[trigger] v[i]),
        frac_wf(mean),
        frac_wf(x),
        frac_wf(total),
        mean.num == 0,
        frac_eq(x, frac_from_int(1)),
        forall|i: int|
            0 <= i < columns - 1 ==> frac_eq(#[trigger] v[i], poisson_term(i as nat, mean, x, total)),
        frac_eq(v[columns - 1], frac_sub(total, frac_sum(v.take(columns - 1)))),
    ensures
        frac_eq(v[0], total),
        forall|i: int| 1 <= i < columns ==> frac_eq(#[trigger] v[i], frac_from_int(0)),
{
    // each fixed term with a positive index is zero, since lambda^i has a
    // zero numerator
    assert forall|i: int| 1 <= i < columns - 1 implies frac_eq(
        #[trigger] v[i],
        frac_from_int(0),
    ) by {
        lemma_pow_zero_num(mean, i as nat);
        let t = poisson_term(i as nat, mean, x, total);
        lemma_factorial_pos(i as nat);
        lemma_frac_pow_wf(mean, i as nat);
        lemma_frac_ops_wf(total, x);
        lemma_frac_ops_wf(frac_pow(mean, i as nat), frac_from_int(spec_factorial(i as nat) as int));
        lemma_frac_ops_wf(
            frac_mul(total, x),
            frac_div(frac_pow(mean, i as nat), frac_from_int(spec_factorial(i as nat) as int)),
        );
        assert(t.num == (total.num * x.num) * (frac_pow(mean, i as nat).num * 1));
        assert(frac_pow(mean, i as nat).num * 1 == 0);
        assert((total.num * x.num) * 0 == 0) by (nonlinear_arith);
        assert(t.num == 0);
        assert(frac_eq(t, frac_from_int(0))) by (nonlinear_arith)
            requires
                t.num == 0,
        ;
        lemma_frac_eq_trans(v[i], t, frac_from_int(0));
    }
    // the first fixed term is N itself
    if columns >= 2 {
        let t0 = poisson_term(0, mean, x, total);
        lemma_frac_ops_wf(total, x);
        lemma_frac_mul_congr(total, total, x, frac_from_int(1));
        assert(frac_mul(total, frac_from_int(1)) == total);
        assert(frac_pow(mean, 0) == frac_from_int(1));
        assert(frac_div(frac_from_int(1), frac_from_int(spec_factorial(0) as int))
            == frac_from_int(1));
        lemma_frac_mul_congr(frac_mul(total, x), total, frac_from_int(1), frac_from_int(1));
        assert(frac_mul(total, frac_from_int(1)) == total);
        lemma_frac_ops_wf(frac_mul(total, x), frac_from_int(1));
        assert(frac_eq(t0, total));
        lemma_frac_eq_trans(v[0], t0, total);
    }
    // the prefix therefore sums to N, and the remainder entry to zero
    let pre = v.take(columns - 1);
    if columns == 1 {
        assert(pre =~= Seq::<Frac>::empty());
        assert(frac_sum(pre) == frac_from_int(0));
        lemma_frac_ops_wf(total, frac_from_int(0));
        assert(frac_eq(frac_sub(total, frac_from_int(0)), total)) by (nonlinear_arith)
            requires
                frac_wf(total),
                frac_sub(total, frac_from_int(0)).num == total.num * 1 - 0 * total.den,
                frac_sub(total, frac_from_int(0)).den == total.den * 1,
        ;
        lemma_frac_eq_trans(v[0], frac_sub(total, frac_sum(pre)), total);
    } else {
        assert(forall|i: int| 0 <= i < pre.len() ==> frac_wf(#[trigger] pre[i]));
        lemma_sum_first_then_zeros(pre, total);
        lemma_frac_sum_wf(pre);
        lemma_frac_sub_congr(total, total, frac_sum(pre), total);
        lemma_frac_ops_wf(total, frac_sum(pre));
        assert(frac_sub(total, total).num == 0);
        assert(frac_eq(frac_sub(total, total), frac_from_int(0))) by (nonlinear_arith)
            requires
                frac_sub(total, total).num == 0,
                frac_sub(total, total).den == total.den * total.den,
        ;
        lemma_frac_ops_wf(total, total);
        lemma_frac_eq_trans(
            v[columns - 1],
            frac_sub(total, frac_sum(pre)),
            frac_sub(total, total),
        );
        lemma_frac_eq_trans(v[columns - 1], frac_sub(total, total), frac_from_int(0));
    }
}

/// `lambda^i` has a zero numerator whenever `lambda` does and `i >= 1`.
proof fn lemma_pow_zero_num(b: Frac, k: nat)
    requires
        b.num == 0,
        k >= 1,
    ensures
        frac_pow(b, k).num == 0,
    decreases k,
{
    let prev = frac_pow(b, (k - 1) as nat);
    assert(frac_pow(b, k).num == prev.num * b.num);
    assert(prev.num * 0 == 0) by (nonlinear_arith);
}

/// A sequence whose first entry is `total` and whose later entries are all
/// zero sums to `total`.
proof fn lemma_sum_first_then_zeros(s: Seq<Frac>, total: Frac)
    requires
        s.len() >= 1,
        forall|i: int| 0 <= i < s.len() ==> frac_wf(#[trigger] s[i]),
        frac_wf(total),
        frac_eq(s[0], total),
        forall|i: int| 1 <= i < s.len() ==> frac_eq(#[trigger] s[i], frac_from_int(0)),
    ensures
        frac_eq(frac_sum(s), total),
    decreases s.len(),
{
    if s.len() == 1 {
        assert(s.drop_last() =~= Seq::<Frac>::empty());
        assert(frac_sum(Seq::<Frac>::empty()) == frac_from_int(0));
        assert(s.last() == s[0]);
        assert(frac_sum(s) == frac_add(frac_from_int(0), s[0]));
        lemma_frac_add_zero(s[0]);
        lemma_frac_ops_wf(frac_from_int(0), s[0]);
        lemma_frac_eq_trans(frac_sum(s), s[0], total);
    } else {
        let sd = s.drop_last();
        assert(forall|i: int| 0 <= i < sd.len() ==> sd[i] == s[i]);
        lemma_sum_first_then_zeros(sd, total);
        lemma_frac_sum_wf(sd);
        lemma_frac_add_congr(frac_sum(sd), total, s.last(), frac_from_int(0));
        lemma_frac_ops_wf(frac_sum(sd), s.last());
        lemma_frac_eq_trans(
            frac_sum(s),
            frac_add(frac_sum(sd), s.last()),
            frac_add(total, frac_from_int(0)),
        );
        lemma_frac_add_zero(total);
        lemma_frac_ops_wf(total, frac_from_int(0));
        lemma_frac_eq_trans(
            frac_sum(s),
            frac_add(total, frac_from_int(0)),
            total,
        );
    }
}


/// `sum_i l_i * o_i` over paired label and observed sequences.
pub open spec fn weighted_sum(l: Seq<int>, o: Seq<int>) -> int
    decreases l.len(),
{
    if l.len() == 0 || l.len() != o.len() {
        0
    } else {
        weighted_sum(l.drop_last(), o.drop_last()) + l.last() * o.last()
    }
}

/// The estimated binomial success probability
/// `p = (sum_i label_i * observed_i) / (N * n)`,
/// where `N` is the total observed frequency and `n` the number of trials.
///
/// Fails with `ZeroTotal` exactly when `N * n` is zero.
pub fn estimate_binomial_p(labels: &Vec<i32>, observed: &Vec<i32>, n: usize) -> (r: Result<
    Rat,
    StatError,
>)
    requires
        labels.len() == observed.len(),
        observed.len() <= 0x7FFF_FFFF,
        n <= 0x7FFF_FFFF,
    ensures
        r is Ok ==> r.unwrap().wf() && frac_eq(
            r.unwrap()@,
            (Frac {
                num: weighted_sum(int_views(labels@), int_views(observed@)),
                den: int_sum(int_views(observed@)) * n,
            }),
        ),
        r == Err::<Rat, StatError>(StatError::ZeroTotal) <==> int_sum(int_views(observed@)) * n
            == 0,
        r is Err ==> r == Err::<Rat, StatError>(StatError::ZeroTotal) || r == Err::<
            Rat,
            StatError,
        >(StatError::Overflow),
        (-0x7FFF_FFFF_FFFF_FFFF <= weighted_sum(int_views(labels@), int_views(observed@))
            <= 0x7FFF_FFFF_FFFF_FFFF && int_sum(int_views(observed@)) * n != 0
            && -0x7FFF_FFFF_FFFF_FFFF <= int_sum(int_views(observed@)) * n
            <= 0x7FFF_FFFF_FFFF_FFFF) ==> r is Ok,
{
    let w = weighted_sum_exec(labels, observed);
    let len = observed.len();
    let total = sum_i32_range(observed, 0, len);
    proof {
        assert(int_views(observed@).subrange(0, len as int) =~= int_views(observed@));
        assert((total as int) * (n as int) <= 0x4000_0000_0000_0000_0000_0000_0000_0000
            && (total as int) * (n as int) >= -0x4000_0000_0000_0000_0000_0000_0000_0000
            && (((total as int) * (n as int) == 0) <==> (total as int == 0 || n as int == 0)))
            by (nonlinear_arith)
            requires
                -0x8000_0000_0000_0000 <= total as int <= 0x7FFF_FFFF_FFFF_FFFF,
                0 <= n as int <= 0x7FFF_FFFF,
        ;
    }
    let d: i128 = (total as i128) * (n as i128);
    if d == 0 {
        return Err(StatError::ZeroTotal);
    }
    if w > 0x7FFF_FFFF_FFFF_FFFF || w < -0x7FFF_FFFF_FFFF_FFFF {
        return Err(StatError::Overflow);
    }
    if d > 0x7FFF_FFFF_FFFF_FFFF || d < -0x7FFF_FFFF_FFFF_FFFF {
        return Err(StatError::Overflow);
    }
    match Rat::new(w as i64, d as i64) {
        Some(r) => Ok(r),
        None => Err(StatError::Overflow),
    }
}

/// The estimated Poisson mean
/// `lambda = (sum_i label_i * observed_i) / N`.
///
/// Fails with `ZeroTotal` exactly when the total observed frequency is zero.
pub fn estimate_poisson_mean(labels: &Vec<i32>, observed: &Vec<i32>) -> (r: Result<Rat, StatError>)
    requires
        labels.len() == observed.len(),
        observed.len() <= 0x7FFF_FFFF,
    ensures
        r is Ok ==> r.unwrap().wf() && frac_eq(
            r.unwrap()@,
            (Frac {
                num: weighted_sum(int_views(labels@), int_views(observed@)),
                den: int_sum(int_views(observed@)),
            }),
        ),
        r == Err::<Rat, StatError>(StatError::ZeroTotal) <==> int_sum(int_views(observed@)) == 0,
        r is Err ==> r == Err::<Rat, StatError>(StatError::ZeroTotal) || r == Err::<
            Rat,
            StatError,
        >(StatError::Overflow),
        (-0x7FFF_FFFF_FFFF_FFFF <= weighted_sum(int_views(labels@), int_views(observed@))
            <= 0x7FFF_FFFF_FFFF_FFFF && int_sum(int_views(observed@)) != 0) ==> r is Ok,
{
    let w = weighted_sum_exec(labels, observed);
    let len = observed.len();
    let total = sum_i32_range(observed, 0, len);
    proof {
        assert(int_views(observed@).subrange(0, len as int) =~= int_views(observed@));
    }
    if total == 0 {
        return Err(StatError::ZeroTotal);
    }
    if w > 0x7FFF_FFFF_FFFF_FFFF || w < -0x7FFF_FFFF_FFFF_FFFF {
        return Err(StatError::Overflow);
    }
    match Rat::new(w as i64, total) {
        Some(r) => Ok(r),
        None => Err(StatError::Overflow),
    }
}

/// The exact weighted sum `sum_i l_i * o_i`, accumulated in 128 bits.
fn weighted_sum_exec(labels: &Vec<i32>, observed: &Vec<i32>) -> (w: i128)
    requires
        labels.len() == observed.len(),
        observed.len() <= 0x7FFF_FFFF,
    ensures
        w as int == weighted_sum(int_views(labels@), int_views(observed@)),
        -0x7FFF_FFFF_FFFF_FFFF_FFFF_FFFF <= w as int <= 0x7FFF_FFFF_FFFF_FFFF_FFFF_FFFF,
{
    let ghost lv = int_views(labels@);
    let ghost ov = int_views(observed@);
    let len = labels.len();
    let mut w: i128 = 0;
    let mut j: usize = 0;
    while j < len
        invariant
            j <= len,
            len == labels.len(),
            len == observed.len(),
            len <= 0x7FFF_FFFF,
            lv == int_views(labels@),
            ov == int_views(observed@),
            w as int == weighted_sum(lv.take(j as int), ov.take(j as int)),
            -0x4000_0000_0000_0000 * (j as int) <= w as int <= 0x4000_0000_0000_0000 * (
            j as int),
        decreases len - j,
    {
        proof {
            assert(-0x4000_0000_0000_0000 <= (labels@[j as int] as int) * (observed@[j as int]
                as int) <= 0x4000_0000_0000_0000) by (nonlinear_arith)
                requires
                    -0x8000_0000 <= labels@[j as int] as int <= 0x7FFF_FFFF,
                    -0x8000_0000 <= observed@[j as int] as int <= 0x7FFF_FFFF,
            ;
            let lp = lv.take(j as int);
            let op = ov.take(j as int);
            let lp2 = lv.take(j + 1);
            let op2 = ov.take(j + 1);
            assert(lp2.drop_last() =~= lp);
            assert(op2.drop_last() =~= op);
            assert(lp2.last() == labels@[j as int] as int);
            assert(op2.last() == observed@[j as int] as int);
        }
        w = w + (labels[j] as i128) * (observed[j] as i128);
        j = j + 1;
    }
    proof {
        assert(lv.take(len as int) =~= lv);
        assert(ov.take(len as int) =~= ov);
    }
    w
}

/// A grouped expected vector whose ungrouped form is the binomial
/// expected-frequency vector for `n`, `p` and `total`.
pub open spec fn binom_grouping_ok(
    n: nat,
    p: Frac,
    total: Frac,
    rv: Seq<Frac>,
    gs: int,
    ge: int,
) -> bool {
    exists|sv: Seq<Frac>|
        {
            &&& #[trigger] grouped_ok(sv, rv, gs, ge)
            &&& sv.len() == n + 1
            &&& (forall|i: int|
                0 <= i <= n ==> frac_wf(#[trigger] sv[i]) && frac_eq(
                    sv[i],
                    binom_term(n, i as nat, p, total),
                ))
            &&& 0 <= gs < sv.len()
            &&& 0 <= ge < sv.len()
        }
}

/// A grouped expected vector whose ungrouped form is the Poisson
/// expected-frequency vector for `mean`, `x` and `total` over `columns`
/// categories.
pub open spec fn poisson_grouping_ok(
    columns: int,
    mean: Frac,
    x: Frac,
    total: Frac,
    rv: Seq<Frac>,
    gs: int,
    ge: int,
) -> bool {
    exists|sv: Seq<Frac>|
        {
            &&& #[trigger] grouped_ok(sv, rv, gs, ge)
            &&& sv.len() == columns
            &&& (forall|i: int|
                0 <= i < columns - 1 ==> frac_wf(#[trigger] sv[i]) && frac_eq(
                    sv[i],
                    poisson_term(i as nat, mean, x, total),
                ))
            &&& frac_wf(sv[columns - 1])
            &&& frac_eq(sv[columns - 1], frac_sub(total, frac_sum(sv.take(columns - 1))))
            &&& 0 <= gs < sv.len()
            &&& 0 <= ge < sv.len()
        }
}

/// Builds the binomial expected-frequency vector and merges its too-small
/// boundary bins, returning the grouped vector with the absorbed boundary
/// indices.
pub fn create_binomial_expecteds(n: usize, p: &Rat, freq_sum: &Rat) -> (r: Result<
    (Vec<Rat>, usize, usize),
    StatError,
>)
    requires
        n <= 12,
        p.wf(),
        freq_sum.wf(),
    ensures
        r is Ok ==> binom_grouping_ok(
            n as nat,
            p@,
            freq_sum@,
            rat_views(r.unwrap().0@),
            r.unwrap().1 as int,
            r.unwrap().2 as int,
        ),
        r is Err ==> r == Err::<(Vec<Rat>, usize, usize), StatError>(StatError::Overflow),
        binom_whole_inputs(n as int, p@, freq_sum@) ==> r is Ok,
{
    let ghost whole = binom_whole_inputs(n as int, p@, freq_sum@);
    let exps = match binomial_expecteds(n, p, freq_sum) {
        Ok(v) => v,
        Err(e) => {
            proof {
                if whole {
                    assert(false);
                }
            }
            return Err(e);
        },
    };
    let ghost ev = exps@;
    let ghost sv = rat_views(ev);
    proof {
        assert(forall|i: int| 0 <= i < ev.len() ==> (#[trigger] ev[i]).wf());
        assert forall|i: int| 0 <= i <= n implies frac_wf(#[trigger] sv[i]) && frac_eq(
            sv[i],
            binom_term(n as nat, i as nat, p@, freq_sum@),
        ) by {
            assert(sv[i] == ev[i]@);
        }
    }
    let (v, gs, ge) = match group_expecteds(exps) {
        Ok(t) => t,
        Err(e) => {
            proof {
                if whole {
                    assert(false);
                }
            }
            return Err(e);
        },
    };
    proof {
        assert(grouped_ok(sv, rat_views(v@), gs as int, ge as int));
    }
    Ok((v, gs, ge))
}

/// Builds the Poisson expected-frequency vector and merges its too-small
/// boundary bins, returning the grouped vector with the absorbed boundary
/// indices.
pub fn create_poisson_expecteds(
    mean: &Rat,
    exp_neg_mean: &Rat,
    freq_sum: &Rat,
    columns: usize,
) -> (r: Result<(Vec<Rat>, usize, usize), StatError>)
    requires
        1 <= columns <= 14,
        mean.wf(),
        exp_neg_mean.wf(),
        freq_sum.wf(),
    ensures
        r is Ok ==> poisson_grouping_ok(
            columns as int,
            mean@,
            exp_neg_mean@,
            freq_sum@,
            rat_views(r.unwrap().0@),
            r.unwrap().1 as int,
            r.unwrap().2 as int,
        ),
        r is Err ==> r == Err::<(Vec<Rat>, usize, usize), StatError>(StatError::Overflow),
        poisson_whole_inputs(columns as int, mean@, exp_neg_mean@, freq_sum@) ==> r is Ok,
{
    let ghost whole = poisson_whole_inputs(columns as int, mean@, exp_neg_mean@, freq_sum@);
    let exps = match poisson_expecteds(mean, exp_neg_mean, freq_sum, columns) {
        Ok(v) => v,
        Err(e) => {
            proof {
                if whole {
                    assert(false);
                }
            }
            return Err(e);
        },
    };
    let ghost ev = exps@;
    let ghost sv = rat_views(ev);
    proof {
        assert(forall|i: int| 0 <= i < ev.len() ==> (#[trigger] ev[i]).wf());
        assert forall|i: int| 0 <= i < columns - 1 implies frac_wf(#[trigger] sv[i]) && frac_eq(
            sv[i],
            poisson_term(i as nat, mean@, exp_neg_mean@, freq_sum@),
        ) by {
            assert(sv[i] == ev[i]@);
        }
        assert(sv[columns - 1] == ev[columns - 1]@);
        assert(sv.take(columns - 1) =~= rat_views(ev).take(columns - 1));
    }
    let (v, gs, ge) = match group_expecteds(exps) {
        Ok(t) => t,
        Err(e) => {
            return Err(e);
        },
    };
    proof {
        assert(grouped_ok(sv, rat_views(v@), gs as int, ge as int));
    }
    Ok((v, gs, ge))
}


/// Everything a fitted model reports: the parameter that was used, the
/// grouped observed and expected vectors with their boundary indices, and
/// the exact chi-squared statistic of the grouped pair.
pub struct GroupedFit {
    pub parameter: Rat,
    pub grouped_observed: Vec<i32>,
    pub grouped_expected: Vec<Rat>,
    pub group_start: usize,
    pub group_end: usize,
    pub statistic: Rat,
}

/// How a grouped observed vector relates to the raw one: either everything
/// was merged into a single bin holding the total, or the head and tail are
/// merged at the same boundaries as the expected vector and the middle is
/// untouched.
pub open spec fn grouped_observed_ok(obs: Seq<int>, gobs: Seq<int>, gs: int, ge: int) -> bool {
    if gobs.len() == 1 {
        gobs[0] == int_sum(obs)
    } else {
        &&& gobs.len() == ge - gs + 2
        &&& gobs[0] == int_sum(obs.take(gs + 1))
        &&& (forall|j: int| 1 <= j <= ge - gs ==> gobs[j] == obs[#[trigger] (gs + j)])
        &&& gobs[gobs.len() - 1] == int_sum(obs.skip(ge + 1))
    }
}

/// Which parameter value a binomial fit must use: the one that was given,
/// or the estimate computed from the data.
pub open spec fn binom_param_ok(p: BinomialP, used: Frac, labels: Seq<int>, obs: Seq<int>, n: int) -> bool {
    match p {
        BinomialP::P(p0) => used == p0@,
        BinomialP::Estimate => frac_eq(
            used,
            (Frac { num: weighted_sum(labels, obs), den: int_sum(obs) * n }),
        ),
    }
}

/// Converts grouped observed counts to exact rationals and evaluates the
/// chi-squared statistic of the grouped pair.
fn statistic_of_grouped(gobs: &Vec<i32>, gexp: &Vec<Rat>) -> (r: Result<Rat, StatError>)
    requires
        gobs.len() == gexp.len(),
        forall|i: int| 0 <= i < gexp.len() ==> (#[trigger] gexp[i]).wf(),
    ensures
        r is Ok ==> r.unwrap().wf() && frac_eq(
            r.unwrap()@,
            chi_sum(int_to_fracs(int_views(gobs@)), rat_views(gexp@)),
        ),
        r is Err ==> r == Err::<Rat, StatError>(StatError::NonPositiveExpected) || r == Err::<
            Rat,
            StatError,
        >(StatError::Overflow),
{
    let mut ratobs: Vec<Rat> = Vec::new();
    let mut j: usize = 0;
    while j < gobs.len()
        invariant
            j <= gobs.len(),
            ratobs.len() == j,
            forall|i: int|
                0 <= i < j ==> (#[trigger] ratobs[i]).wf() && ratobs[i]@ == (Frac {
                    num: gobs[i] as int,
                    den: 1,
                }),
        decreases gobs.len() - j,
    {
        ratobs.push(Rat::from_int(gobs[j] as i64));
        j = j + 1;
    }
    let stat = match evaluate(&ratobs, gexp) {
        Ok(x) => x,
        Err(e) => {
            return Err(e);
        },
    };
    proof {
        assert(rat_views(ratobs@) =~= int_to_fracs(int_views(gobs@)));
    }
    Ok(stat)
}

/// Groups the observed vector with the boundaries that were computed for
/// the expected vector, collapsing to a single total bin when the expected
/// vector collapsed.
fn group_observed_like(observed: &Vec<i32>, glen: usize, gs: usize, ge: usize) -> (r: Result<
    Vec<i32>,
    StatError,
>)
    requires
        observed.len() >= 1,
        observed.len() <= 0x7FFF_FFFF,
        glen == 1 || (glen == ge - gs + 2 && gs <= ge < observed.len()),
    ensures
        r is Ok ==> r.unwrap().len() == glen && grouped_observed_ok(
            int_views(observed@),
            int_views(r.unwrap()@),
            gs as int,
            ge as int,
        ),
        r is Err ==> r == Err::<Vec<i32>, StatError>(StatError::Overflow),
{
    let n = observed.len();
    let ghost iv = int_views(observed@);
    if glen == 1 {
        let total = sum_i32_range(observed, 0, n);
        if total > 0x7FFF_FFFF || total < -0x8000_0000 {
            return Err(StatError::Overflow);
        }
        let mut v: Vec<i32> = Vec::new();
        v.push(total as i32);
        proof {
            assert(iv.subrange(0, n as int) =~= iv);
            assert(int_views(v@)[0] == total as int);
        }
        Ok(v)
    } else {
        let head = sum_i32_range(observed, 0, gs + 1);
        let tail = sum_i32_range(observed, ge + 1, n);
        proof {
            assert(iv.subrange(0, gs + 1) =~= iv.take(gs + 1));
            assert(iv.subrange(ge + 1, n as int) =~= iv.skip(ge + 1));
        }
        if head > 0x7FFF_FFFF || head < -0x8000_0000 || tail > 0x7FFF_FFFF || tail
            < -0x8000_0000 {
            return Err(StatError::Overflow);
        }
        let v = group_observed(observed, gs, ge);
        proof {
            let gv = int_views(v@);
            assert(gv.len() == ge - gs + 2);
            assert(gv[0] == int_sum(iv.take(gs + 1)));
            assert forall|j: int| 1 <= j <= ge - gs implies gv[j] == iv[#[trigger] (gs + j)] by {
                assert(v@[j] == observed@[gs + j]);
            }
            assert(gv[gv.len() - 1] == int_sum(iv.skip(ge + 1)));
        }
        Ok(v)
    }
}

/// Fits the binomial model: uses or estimates `p`, builds and groups the
/// expected vector, groups the observed vector with the same boundaries,
/// and computes the exact chi-squared statistic.
///
/// The observed vector has one entry per category `0..=n`; `labels` are the
/// category values the estimate weighs the observations by.
///
/// Each stage of this pipeline owes a result on a named input set of its
/// own. The pipeline as a whole does not: a fit with positive expected
/// bins needs a fractional probability, and this contract does not bound
/// how far such a fraction's exact intermediate forms compound, so the
/// flow promises only an exact statistic or a named error, never a wrong
/// value.
pub fn binomial(observed: &Vec<i32>, labels: &Vec<i32>, n: usize, p: &BinomialP) -> (r: Result<
    GroupedFit,
    StatError,
>)
    requires
        n <= 12,
        observed.len() == n + 1,
        labels.len() == observed.len(),
        p matches BinomialP::P(p0) ==> p0.wf(),
    ensures
        r is Ok ==> {
            let f = r.unwrap();
            &&& f.parameter.wf()
            &&& binom_param_ok(*p, f.parameter@, int_views(labels@), int_views(observed@), n as int)
            &&& binom_grouping_ok(
                n as nat,
                f.parameter@,
                frac_from_int(int_sum(int_views(observed@))),
                rat_views(f.grouped_expected@),
                f.group_start as int,
                f.group_end as int,
            )
            &&& f.grouped_observed.len() == f.grouped_expected.len()
            &&& grouped_observed_ok(
                int_views(observed@),
                int_views(f.grouped_observed@),
                f.group_start as int,
                f.group_end as int,
            )
            &&& f.statistic.wf()
            &&& frac_eq(
                f.statistic@,
                chi_sum(int_to_fracs(int_views(f.grouped_observed@)), rat_views(f.grouped_expected@)),
            )
        },
        r is Err ==> r == Err::<GroupedFit, StatError>(StatError::Overflow) || r == Err::<
            GroupedFit,
            StatError,
        >(StatError::ZeroTotal) || r == Err::<GroupedFit, StatError>(StatError::NonPositiveExpected),
{
    let total = sum_i32_range(observed, 0, observed.len());
    proof {
        assert(int_views(observed@).subrange(0, observed.len() as int) =~= int_views(observed@));
    }
    let p_used: Rat = match p {
        BinomialP::P(p0) => *p0,
        BinomialP::Estimate => {
            match estimate_binomial_p(labels, observed, n) {
                Ok(x) => x,
                Err(e) => {
                    return Err(e);
                },
            }
        },
    };
    let total_rat = Rat::from_int(total);
    let (gexp, gs, ge) = match create_binomial_expecteds(n, &p_used, &total_rat) {
        Ok(t) => t,
        Err(e) => {
            return Err(e);
        },
    };
    let glen = gexp.len();
    proof {
        let sv = choose|sv: Seq<Frac>|
            {
                &&& #[trigger] grouped_ok(sv, rat_views(gexp@), gs as int, ge as int)
                &&& sv.len() == n + 1
                &&& (forall|i: int|
                    0 <= i <= n ==> frac_wf(#[trigger] sv[i]) && frac_eq(
                        sv[i],
                        binom_term(n as nat, i as nat, p_used@, total_rat@),
                    ))
                &&& 0 <= gs as int && (gs as int) < sv.len()
                &&& 0 <= ge as int && (ge as int) < sv.len()
            };
        assert(glen == 1 || (glen == ge - gs + 2 && gs <= ge < observed.len()));
        assert forall|i: int| 0 <= i < gexp.len() implies (#[trigger] gexp[i]).wf() by {
            assert(frac_wf(rat_views(gexp@)[i]));
            assert(rat_views(gexp@)[i] == gexp[i]@);
        }
    }
    let gobs = match group_observed_like(observed, glen, gs, ge) {
        Ok(v) => v,
        Err(e) => {
            return Err(e);
        },
    };
    let stat = match statistic_of_grouped(&gobs, &gexp) {
        Ok(x) => x,
        Err(e) => {
            return Err(e);
        },
    };
    Ok(
        GroupedFit {
            parameter: p_used,
            grouped_observed: gobs,
            grouped_expected: gexp,
            group_start: gs,
            group_end: ge,
            statistic: stat,
        },
    )
}

/// Fits the Poisson model for a given mean `lambda` (with `exp_neg_mean`
/// standing exactly for `e^(-lambda)`): builds and groups the expected
/// vector over one category per observed entry, groups the observed vector
/// with the same boundaries, and computes the exact chi-squared statistic.
///
/// A mean estimated from the data comes from `estimate_poisson_mean`; the
/// caller supplies `e^(-lambda)` for whichever mean is used, since the
/// exponential is not a rational function of it.
///
/// Each stage of this pipeline owes a result on a named input set of its
/// own. The pipeline as a whole does not: a fit with positive expected
/// bins needs a fractional `e^(-lambda)`, and this contract does not bound
/// how far such a fraction's exact intermediate forms compound, so the
/// flow promises only an exact statistic or a named error, never a wrong
/// value.
pub fn poission(observed: &Vec<i32>, mean: &Rat, exp_neg_mean: &Rat) -> (r: Result<
    GroupedFit,
    StatError,
>)
    requires
        1 <= observed.len() <= 14,
        mean.wf(),
        exp_neg_mean.wf(),
    ensures
        r is Ok ==> {
            let f = r.unwrap();
            &&& f.parameter == *mean
            &&& poisson_grouping_ok(
                observed.len() as int,
                mean@,
                exp_neg_mean@,
                frac_from_int(int_sum(int_views(observed@))),
                rat_views(f.grouped_expected@),
                f.group_start as int,
                f.group_end as int,
            )
            &&& f.grouped_observed.len() == f.grouped_expected.len()
            &&& grouped_observed_ok(
                int_views(observed@),
                int_views(f.grouped_observed@),
                f.group_start as int,
                f.group_end as int,
            )
            &&& f.statistic.wf()
            &&& frac_eq(
                f.statistic@,
                chi_sum(int_to_fracs(int_views(f.grouped_observed@)), rat_views(f.grouped_expected@)),
            )
        },
        r is Err ==> r == Err::<GroupedFit, StatError>(StatError::Overflow) || r == Err::<
            GroupedFit,
            StatError,
        >(StatError::NonPositiveExpected),
{
    let columns = observed.len();
    let total = sum_i32_range(observed, 0, columns);
    proof {
        assert(int_views(observed@).subrange(0, columns as int) =~= int_views(observed@));
    }
    let total_rat = Rat::from_int(total);
    let (gexp, gs, ge) = match create_poisson_expecteds(mean, exp_neg_mean, &total_rat, columns) {
        Ok(t) => t,
        Err(e) => {
            return Err(e);
        },
    };
    let glen = gexp.len();
    proof {
        let sv = choose|sv: Seq<Frac>|
            {
                &&& #[trigger] grouped_ok(sv, rat_views(gexp@), gs as int, ge as int)
                &&& sv.len() == columns
                &&& (forall|i: int|
                    0 <= i < columns - 1 ==> frac_wf(#[trigger] sv[i]) && frac_eq(
                        sv[i],
                        poisson_term(i as nat, mean@, exp_neg_mean@, total_rat@),
                    ))
                &&& frac_wf(sv[columns - 1])
                &&& frac_eq(sv[columns - 1], frac_sub(total_rat@, frac_sum(sv.take(columns - 1))))
                &&& 0 <= gs as int && (gs as int) < sv.len()
                &&& 0 <= ge as int && (ge as int) < sv.len()
            };
        assert(glen == 1 || (glen == ge - gs + 2 && gs <= ge < observed.len()));
        assert forall|i: int| 0 <= i < gexp.len() implies (#[trigger] gexp[i]).wf() by {
            assert(frac_wf(rat_views(gexp@)[i]));
            assert(rat_views(gexp@)[i] == gexp[i]@);
        }
    }
    let gobs = match group_observed_like(observed, glen, gs, ge) {
        Ok(v) => v,
        Err(e) => {
            return Err(e);
        },
    };
    let stat = match statistic_of_grouped(&gobs, &gexp) {
        Ok(x) => x,
        Err(e) => {
            return Err(e);
        },
    };
    Ok(
        GroupedFit {
            parameter: *mean,
            grouped_observed: gobs,
            grouped_expected: gexp,
            group_start: gs,
            group_end: ge,
            statistic: stat,
        },
    )
}

} // verus!
