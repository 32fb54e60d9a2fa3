//! The chi-squared evaluator: the sum of squared normalized residuals
//! between paired observed and expected frequency vectors.
use crate::rat::Frac;
use crate::rat::Rat;
use crate::rat::frac_add;
use crate::rat::frac_div;
use crate::rat::frac_eq;
use crate::rat::frac_from_int;
use crate::rat::frac_mul;
use crate::rat::frac_sub;
use crate::rat::frac_wf;
use crate::rat::ipow;
use crate::rat::lemma_ipow_mono;
use crate::rat::lemma_ipow_pos;
use crate::rat::lemma_frac_add_congr;
use crate::rat::lemma_frac_div_congr;
use crate::rat::lemma_frac_eq_trans;
use crate::rat::lemma_frac_mul_congr;
use crate::rat::lemma_frac_ops_wf;
use crate::rat::frac_sum;
use crate::rat::is_permutation;
use crate::rat::lemma_frac_nonpos_congr;
use crate::rat::lemma_frac_sub_congr;
use crate::rat::lemma_frac_sum_multiset;
use crate::rat::lemma_reorder_multiset;
use crate::rat::reorder;
use crate::rat::rat_views;
use crate::parse::decimal_vals;
use crate::parse::is_decimal_str;
use crate::parse::prefix_digits_len;
use crate::parse::frac_digits_len;
use crate::parse::body_of;
use crate::parse::decimal_val;
use crate::parse::lemma_decimal_val_wf;
use crate::parse::lemma_small_whole_value;
use crate::parse::parse_decimal_row;
use vstd::prelude::*;

verus! {

/// Why a statistic could not be produced.
#[derive(Clone, Copy, Debug, PartialEq, Eq, Structural)]
pub enum StatError {
    /// An expected frequency was zero or negative where the statistic
    /// divides by it.
    NonPositiveExpected,
    /// A table's grand total was zero, so no expected cell is defined.
    ZeroTotal,
    /// An exact intermediate value exceeded the representable range.
    Overflow,
}

/// One term of the statistic: `(o - e)^2 / e`.
pub open spec fn chi_term(o: Frac, e: Frac) -> Frac {
    frac_div(frac_mul(frac_sub(o, e), frac_sub(o, e)), e)
}

/// The statistic over paired equal-length vectors:
/// `sum_i (o_i - e_i)^2 / e_i`.
pub open spec fn chi_sum(obs: Seq<Frac>, exp: Seq<Frac>) -> Frac
    decreases obs.len(),
{
    if obs.len() == 0 {
        frac_from_int(0)
    } else {
        frac_add(chi_sum(obs.drop_last(), exp.drop_last()), chi_term(obs.last(), exp.last()))
    }
}

/// A term is well-formed when its inputs are and the expected value is
/// positive.
pub proof fn lemma_chi_term_wf(o: Frac, e: Frac)
    requires
        frac_wf(o),
        frac_wf(e),
        e.num > 0,
    ensures
        frac_wf(chi_term(o, e)),
{
    lemma_frac_ops_wf(o, e);
    lemma_frac_ops_wf(frac_sub(o, e), frac_sub(o, e));
    lemma_frac_ops_wf(frac_mul(frac_sub(o, e), frac_sub(o, e)), e);
}

/// The statistic is well-formed when all its inputs are and every expected
/// value is positive.
pub proof fn lemma_chi_sum_wf(obs: Seq<Frac>, exp: Seq<Frac>)
    requires
        obs.len() == exp.len(),
        forall|i: int| 0 <= i < obs.len() ==> frac_wf(#[trigger] obs[i]),
        forall|i: int| 0 <= i < exp.len() ==> frac_wf(#[trigger] exp[i]) && exp[i].num > 0,
    ensures
        frac_wf(chi_sum(obs, exp)),
    decreases obs.len(),
{
    if obs.len() > 0 {
        lemma_chi_sum_wf(obs.drop_last(), exp.drop_last());
        lemma_chi_term_wf(obs.last(), exp.last());
        lemma_frac_ops_wf(chi_sum(obs.drop_last(), exp.drop_last()), chi_term(obs.last(), exp.last()));
    }
}

/// Comparing a vector against itself gives a statistic of exactly zero.
/// This is the self-comparison law: `evaluate(x, x) == 0` whenever every
/// entry of `x` is positive.
pub proof fn lemma_chi_sum_self_zero(s: Seq<Frac>)
    requires
        forall|i: int| 0 <= i < s.len() ==> frac_wf(#[trigger] s[i]) && s[i].num > 0,
    ensures
        frac_eq(chi_sum(s, s), frac_from_int(0)),
    decreases s.len(),
{
    if s.len() > 0 {
        let sd = s.drop_last();
        lemma_chi_sum_self_zero(sd);
        lemma_chi_sum_wf(sd, sd);
        let x = s.last();
        // the term at x is 0 / something-positive
        assert(frac_sub(x, x).num == 0);
        assert(chi_term(x, x).num == 0) by (nonlinear_arith)
            requires
                frac_sub(x, x).num == 0,
                chi_term(x, x).num == (frac_sub(x, x).num * frac_sub(x, x).num) * x.den,
        ;
        lemma_chi_term_wf(x, x);
        lemma_frac_ops_wf(chi_sum(sd, sd), chi_term(x, x));
        lemma_frac_add_congr(
            chi_sum(sd, sd),
            frac_from_int(0),
            chi_term(x, x),
            chi_term(x, x),
        );
        // frac_add(0/1, t) with t.num == 0 has numerator 0
        let t = chi_term(x, x);
        assert(frac_add(frac_from_int(0), t).num == 0) by (nonlinear_arith)
            requires
                t.num == 0,
                frac_add(frac_from_int(0), t).num == 0 * t.den + t.num * 1,
        ;
        lemma_frac_ops_wf(frac_from_int(0), t);
        lemma_frac_eq_trans(
            chi_sum(s, s),
            frac_add(frac_from_int(0), t),
            frac_from_int(0),
        );
    }
}

/// A pair of vectors small enough that the statistic is owed: at most four
/// whole-number categories with magnitudes up to 255. This is a
/// conservative worst-case bound on the exact arithmetic that holds even if
/// no intermediate fraction ever reduced; in practice far larger inputs
/// succeed.
pub open spec fn eval_small(ov: Seq<Rat>, ev: Seq<Rat>) -> bool {
    &&& ov.len() <= 4
    &&& (forall|i: int|
        0 <= i < ov.len() ==> (#[trigger] ov[i])@.den == 1 && -0xFF <= ov[i]@.num <= 0xFF)
    &&& (forall|i: int| 0 <= i < ev.len() ==> (#[trigger] ev[i])@.den == 1 && 0 < ev[i]@.num <= 0xFF)
}

/// A pair of vectors shaped like a tiny contingency table, on which the
/// statistic is owed: at most four cells, whole observed counts up to 4,
/// and expected fractions with numerators up to 16 over denominators up to
/// 4. A conservative worst-case bound on the exact arithmetic, ignoring
/// reduction.
pub open spec fn eval_small_cells(ov: Seq<Rat>, ev: Seq<Rat>) -> bool {
    &&& ov.len() <= 4
    &&& (forall|i: int|
        0 <= i < ov.len() ==> (#[trigger] ov[i])@.den == 1 && -4 <= ov[i]@.num <= 4)
    &&& (forall|i: int|
        0 <= i < ev.len() ==> 1 <= (#[trigger] ev[i])@.den <= 4 && 0 < ev[i]@.num <= 16)
}

/// The powers of 256 the cell-shaped smallness argument walks through.
proof fn lemma_pow256()
    ensures
        ipow(256, 0) == 1,
        ipow(256, 1) == 256,
        ipow(256, 2) == 65536,
        ipow(256, 3) == 16777216,
        ipow(256, 4) == 4294967296,
{
    assert(ipow(256, 0) == 1);
    assert(ipow(256, 1) == 256 * 1);
    assert(ipow(256, 2) == 256 * 256);
    assert(ipow(256, 3) == 256 * 65536);
    assert(ipow(256, 4) == 256 * 16777216);
}

/// The powers of 255 the smallness argument walks through.
proof fn lemma_pow255()
    ensures
        ipow(255, 0) == 1,
        ipow(255, 1) == 255,
        ipow(255, 2) == 65025,
        ipow(255, 3) == 16581375,
        ipow(255, 4) == 4228250625,
{
    assert(ipow(255, 0) == 1);
    assert(ipow(255, 1) == 255 * 1);
    assert(ipow(255, 2) == 255 * 255);
    assert(ipow(255, 3) == 255 * 65025);
    assert(ipow(255, 4) == 255 * 16581375);
}

/// Computes the chi-squared statistic `sum_i (o_i - e_i)^2 / e_i` exactly.
///
/// Fails with `NonPositiveExpected` exactly when some expected entry is not
/// positive; otherwise only a value out of representable range is an error —
/// and on small whole-number inputs (`eval_small`) the statistic is owed.
pub fn evaluate(observed: &Vec<Rat>, expected: &Vec<Rat>) -> (r: Result<Rat, StatError>)
    requires
        observed.len() == expected.len(),
        forall|i: int| 0 <= i < observed.len() ==> (#[trigger] observed[i]).wf(),
        forall|i: int| 0 <= i < expected.len() ==> (#[trigger] expected[i]).wf(),
    ensures
        r is Ok ==> r.unwrap().wf() && frac_eq(
            r.unwrap()@,
            chi_sum(rat_views(observed@), rat_views(expected@)),
        ),
        r == Err::<Rat, StatError>(StatError::NonPositiveExpected) <==> exists|i: int|
            0 <= i < expected.len() && (#[trigger] expected[i])@.num <= 0,
        r is Err ==> r == Err::<Rat, StatError>(StatError::NonPositiveExpected) || r == Err::<Rat, StatError>(StatError::Overflow),
        eval_small(observed@, expected@) ==> r is Ok,
        eval_small_cells(observed@, expected@) ==> r is Ok,
{
    let ghost small = eval_small(observed@, expected@);
    let ghost cells = eval_small_cells(observed@, expected@);
    let n = expected.len();
    let mut i: usize = 0;
    while i < n
        invariant
            n == expected.len(),
            small == eval_small(observed@, expected@),
            cells == eval_small_cells(observed@, expected@),
            forall|j: int| 0 <= j < expected.len() ==> (#[trigger] expected[j]).wf(),
            forall|j: int| 0 <= j < i ==> (#[trigger] expected[j])@.num > 0,
        decreases n - i,
    {
        if expected[i].num <= 0 {
            proof {
                if small || cells {
                    assert(false);
                }
            }
            return Err(StatError::NonPositiveExpected);
        }
        i = i + 1;
    }
    let ghost ov = rat_views(observed@);
    let ghost ev = rat_views(expected@);
    let mut acc = Rat::from_int(0);
    let mut k: usize = 0;
    while k < n
        invariant
            n == expected.len(),
            n == observed.len(),
            ov == rat_views(observed@),
            ev == rat_views(expected@),
            forall|j: int| 0 <= j < observed.len() ==> (#[trigger] observed[j]).wf(),
            forall|j: int| 0 <= j < expected.len() ==> (#[trigger] expected[j]).wf(),
            forall|j: int| 0 <= j < expected.len() ==> (#[trigger] expected[j])@.num > 0,
            k <= n,
            acc.wf(),
            frac_eq(acc@, chi_sum(ov.take(k as int), ev.take(k as int))),
            small == eval_small(observed@, expected@),
            cells == eval_small_cells(observed@, expected@),
            small ==> 1 <= acc@.den <= ipow(255, k as nat) && -(k * 260100 * ipow(
                255,
                k as nat,
            )) <= acc@.num <= k * 260100 * ipow(255, k as nat),
            cells ==> 1 <= acc@.den <= ipow(256, k as nat) && -(k * 4096 * ipow(
                256,
                k as nat,
            )) <= acc@.num <= k * 4096 * ipow(256, k as nat),
        decreases n - k,
    {
        proof {
            if small {
                // the difference of two whole entries is a small whole number
                assert(frac_sub(observed[k as int]@, expected[k as int]@).den == 1);
                assert(-510 <= frac_sub(observed[k as int]@, expected[k as int]@).num <= 510);
            }
            if cells {
                let o = observed[k as int]@;
                let e = expected[k as int]@;
                assert(1 <= frac_sub(o, e).den <= 4 && -32 <= frac_sub(o, e).num <= 32)
                    by (nonlinear_arith)
                    requires
                        frac_sub(o, e).num == o.num * e.den - e.num * o.den,
                        frac_sub(o, e).den == o.den * e.den,
                        o.den == 1,
                        -4 <= o.num <= 4,
                        1 <= e.den <= 4,
                        0 < e.num <= 16,
                ;
            }
        }
        let d = match observed[k].sub(&expected[k]) {
            Some(v) => v,
            None => {
                proof {
                    if small || cells {
                        assert(false);
                    }
                }
                return Err(StatError::Overflow);
            },
        };
        proof {
            if small {
                assert(d@.den == 1);
                assert(-510 <= d@.num <= 510);
                assert(-260100 <= d@.num * d@.num <= 260100) by (nonlinear_arith)
                    requires
                        -510 <= d@.num <= 510,
                ;
                assert(frac_mul(d@, d@).den == 1);
            }
            if cells {
                assert(1 <= d@.den <= 4);
                assert(-32 <= d@.num <= 32);
                assert(-1024 <= d@.num * d@.num <= 1024 && 1 <= d@.den * d@.den <= 16)
                    by (nonlinear_arith)
                    requires
                        -32 <= d@.num <= 32,
                        1 <= d@.den <= 4,
                ;
            }
        }
        let sq = match d.mul(&d) {
            Some(v) => v,
            None => {
                proof {
                    if small || cells {
                        assert(false);
                    }
                }
                return Err(StatError::Overflow);
            },
        };
        proof {
            if small {
                assert(sq@.den == 1);
                assert(-260100 <= sq@.num <= 260100);
                // dividing by a whole expected entry keeps everything small
                assert(frac_div(sq@, expected[k as int]@).num == sq@.num * 1);
                assert(frac_div(sq@, expected[k as int]@).den == 1 * expected[k as int]@.num);
            }
            if cells {
                let e = expected[k as int]@;
                assert(1 <= sq@.den <= 16);
                assert(-1024 <= sq@.num <= 1024);
                assert(-4096 <= sq@.num * e.den <= 4096 && 1 <= sq@.den * e.num <= 256)
                    by (nonlinear_arith)
                    requires
                        -1024 <= sq@.num <= 1024,
                        1 <= sq@.den <= 16,
                        1 <= e.den <= 4,
                        0 < e.num <= 16,
                ;
                assert(frac_div(sq@, e).num == sq@.num * e.den);
                assert(frac_div(sq@, e).den == sq@.den * e.num);
            }
        }
        let t = match sq.div(&expected[k]) {
            Some(v) => v,
            None => {
                proof {
                    if small || cells {
                        assert(false);
                    }
                }
                return Err(StatError::Overflow);
            },
        };
        proof {
            if cells {
                lemma_pow256();
                lemma_ipow_pos(256, k as nat);
                lemma_ipow_mono(256, (k + 1) as nat, 4);
                assert(1 <= t@.den <= 256);
                assert(-4096 <= t@.num <= 4096);
                assert(ipow(256, (k + 1) as nat) == 256 * ipow(256, k as nat));
                assert(frac_add(acc@, t@).den <= ipow(256, (k + 1) as nat) && -((k + 1) * 4096
                    * ipow(256, (k + 1) as nat)) <= frac_add(acc@, t@).num <= (k + 1) * 4096
                    * ipow(256, (k + 1) as nat)) by (nonlinear_arith)
                    requires
                        frac_add(acc@, t@).num == acc@.num * t@.den + t@.num * acc@.den,
                        frac_add(acc@, t@).den == acc@.den * t@.den,
                        1 <= acc@.den <= ipow(256, k as nat),
                        -(k * 4096 * ipow(256, k as nat)) <= acc@.num <= k * 4096 * ipow(
                            256,
                            k as nat,
                        ),
                        1 <= t@.den <= 256,
                        -4096 <= t@.num <= 4096,
                        ipow(256, (k + 1) as nat) == 256 * ipow(256, k as nat),
                        ipow(256, k as nat) >= 1,
                        k >= 0,
                ;
                assert((k + 1) * 4096 * ipow(256, (k + 1) as nat) <= 5 * 4096 * 4294967296)
                    by (nonlinear_arith)
                    requires
                        0 <= k + 1 <= 5,
                        1 <= ipow(256, (k + 1) as nat) <= 4294967296,
                ;
            }
            if small {
                lemma_pow255();
                lemma_ipow_pos(255, k as nat);
                lemma_ipow_mono(255, (k + 1) as nat, 4);
                assert(1 <= t@.den <= 255);
                assert(-260100 <= t@.num <= 260100);
                assert(ipow(255, (k + 1) as nat) == 255 * ipow(255, k as nat));
                // the unreduced sum stays far inside the 64-bit range
                assert(frac_add(acc@, t@).den <= ipow(255, (k + 1) as nat) && -((k + 1) * 260100
                    * ipow(255, (k + 1) as nat)) <= frac_add(acc@, t@).num <= (k + 1) * 260100
                    * ipow(255, (k + 1) as nat)) by (nonlinear_arith)
                    requires
                        frac_add(acc@, t@).num == acc@.num * t@.den + t@.num * acc@.den,
                        frac_add(acc@, t@).den == acc@.den * t@.den,
                        1 <= acc@.den <= ipow(255, k as nat),
                        -(k * 260100 * ipow(255, k as nat)) <= acc@.num <= k * 260100 * ipow(
                            255,
                            k as nat,
                        ),
                        1 <= t@.den <= 255,
                        -260100 <= t@.num <= 260100,
                        ipow(255, (k + 1) as nat) == 255 * ipow(255, k as nat),
                        ipow(255, k as nat) >= 1,
                        k >= 0,
                ;
                assert((k + 1) * 260100 * ipow(255, (k + 1) as nat) <= 5 * 260100 * 4228250625)
                    by (nonlinear_arith)
                    requires
                        0 <= k + 1 <= 5,
                        1 <= ipow(255, (k + 1) as nat) <= 4228250625,
                ;
            }
        }
        let acc2 = match acc.add(&t) {
            Some(v) => v,
            None => {
                proof {
                    if small || cells {
                        assert(false);
                    }
                }
                return Err(StatError::Overflow);
            },
        };
        proof {
            if small {
                assert(1 <= acc2@.den <= ipow(255, (k + 1) as nat));
                assert(-((k + 1) * 260100 * ipow(255, (k + 1) as nat)) <= acc2@.num <= (k + 1)
                    * 260100 * ipow(255, (k + 1) as nat));
            }
            if cells {
                assert(1 <= acc2@.den <= ipow(256, (k + 1) as nat));
                assert(-((k + 1) * 4096 * ipow(256, (k + 1) as nat)) <= acc2@.num <= (k + 1)
                    * 4096 * ipow(256, (k + 1) as nat));
            }
        }
        proof {
            let o = ov[k as int];
            let e = ev[k as int];
            // sq is, as a value, (o - e)^2
            lemma_frac_ops_wf(o, e);
            lemma_frac_ops_wf(d@, d@);
            lemma_frac_mul_congr(d@, frac_sub(o, e), d@, frac_sub(o, e));
            lemma_frac_eq_trans(sq@, frac_mul(d@, d@), frac_mul(frac_sub(o, e), frac_sub(o, e)));
            // t is, as a value, the term (o - e)^2 / e
            lemma_frac_ops_wf(sq@, e);
            lemma_frac_div_congr(sq@, frac_mul(frac_sub(o, e), frac_sub(o, e)), e, e);
            lemma_frac_eq_trans(t@, frac_div(sq@, e), chi_term(o, e));
            // the new accumulator is, as a value, the sum over one more term
            let prev = chi_sum(ov.take(k as int), ev.take(k as int));
            lemma_chi_sum_wf(ov.take(k as int), ev.take(k as int));
            lemma_chi_term_wf(o, e);
            lemma_frac_add_congr(acc@, prev, t@, chi_term(o, e));
            lemma_frac_ops_wf(acc@, t@);
            lemma_frac_eq_trans(acc2@, frac_add(acc@, t@), frac_add(prev, chi_term(o, e)));
            assert(ov.take(k + 1).drop_last() =~= ov.take(k as int));
            assert(ev.take(k + 1).drop_last() =~= ev.take(k as int));
            assert(ov.take(k + 1).last() == o);
            assert(ev.take(k + 1).last() == e);
            assert(frac_add(prev, chi_term(o, e)) == chi_sum(ov.take(k + 1), ev.take(k + 1)));
            lemma_frac_ops_wf(prev, chi_term(o, e));
            lemma_frac_eq_trans(
                acc2@,
                frac_add(prev, chi_term(o, e)),
                chi_sum(ov.take(k + 1), ev.take(k + 1)),
            );
        }
        acc = acc2;
        k = k + 1;
    }
    proof {
        assert(ov.take(n as int) =~= ov);
        assert(ev.take(n as int) =~= ev);
    }
    Ok(acc)
}


/// The statistic respects value equality of its inputs, entry by entry.
pub proof fn lemma_chi_sum_congr(o1: Seq<Frac>, e1: Seq<Frac>, o2: Seq<Frac>, e2: Seq<Frac>)
    requires
        o1.len() == e1.len(),
        o2.len() == o1.len(),
        e2.len() == e1.len(),
        forall|i: int| 0 <= i < o1.len() ==> frac_eq(#[trigger] o1[i], o2[i]),
        forall|i: int| 0 <= i < e1.len() ==> frac_eq(#[trigger] e1[i], e2[i]),
    ensures
        frac_eq(chi_sum(o1, e1), chi_sum(o2, e2)),
    decreases o1.len(),
{
    if o1.len() > 0 {
        lemma_chi_sum_congr(o1.drop_last(), e1.drop_last(), o2.drop_last(), e2.drop_last());
        let a = o1.last();
        let b = e1.last();
        let a2 = o2.last();
        let b2 = e2.last();
        lemma_frac_sub_congr(a, a2, b, b2);
        lemma_frac_mul_congr(frac_sub(a, b), frac_sub(a2, b2), frac_sub(a, b), frac_sub(a2, b2));
        lemma_frac_div_congr(
            frac_mul(frac_sub(a, b), frac_sub(a, b)),
            frac_mul(frac_sub(a2, b2), frac_sub(a2, b2)),
            b,
            b2,
        );
        lemma_frac_add_congr(
            chi_sum(o1.drop_last(), e1.drop_last()),
            chi_sum(o2.drop_last(), e2.drop_last()),
            chi_term(a, b),
            chi_term(a2, b2),
        );
    }
}

/// Why the observed-vs-expected comparison could not run.
#[derive(Clone, Copy, Debug, PartialEq, Eq, Structural)]
pub enum OEError {
    /// A cell of either row is not a decimal number.
    NotNumeric,
    /// An expected cell is zero or negative, so its residual is undefined.
    NonPositiveExpected,
    /// An exact intermediate value exceeded the representable range.
    Overflow,
}

/// Whether one user-typed cell is an acceptable decimal.
pub open spec fn cell_numeric(s: Seq<char>) -> bool {
    is_decimal_str(s) && prefix_digits_len(body_of(s)) + frac_digits_len(s) <= 18
}

/// Whether every cell of a row is an acceptable decimal.
pub open spec fn row_numeric(row: Seq<String>) -> bool {
    forall|i: int| 0 <= i < row.len() ==> cell_numeric(#[trigger] row[i]@)
}

/// A row of short whole-number texts: every cell is numeric, has no
/// fractional digits, and holds at most two digits.
pub open spec fn row_small_whole(row: Seq<String>) -> bool {
    forall|i: int|
        0 <= i < row.len() ==> cell_numeric(#[trigger] row[i]@) && frac_digits_len(row[i]@) == 0
            && body_of(row[i]@).len() <= 2
}

/// The observed-vs-expected flow: both rows are user-typed decimal texts;
/// each cell must parse, every expected value must be positive, and the
/// result is the exact chi-squared statistic of the parsed pair.
pub fn observed_expected(observed_row: &Vec<String>, expected_row: &Vec<String>) -> (r: Result<
    Rat,
    OEError,
>)
    requires
        observed_row.len() == expected_row.len(),
    ensures
        r is Ok ==> r.unwrap().wf() && frac_eq(
            r.unwrap()@,
            chi_sum(decimal_vals(observed_row@), decimal_vals(expected_row@)),
        ),
        r == Err::<Rat, OEError>(OEError::NotNumeric) <==> !(row_numeric(observed_row@)
            && row_numeric(expected_row@)),
        r == Err::<Rat, OEError>(OEError::NonPositiveExpected) <==> row_numeric(observed_row@)
            && row_numeric(expected_row@) && (exists|i: int|
            0 <= i < expected_row.len() && decimal_val(#[trigger] expected_row[i]@).num <= 0),
        r is Err ==> r == Err::<Rat, OEError>(OEError::NotNumeric) || r == Err::<Rat, OEError>(
            OEError::NonPositiveExpected,
        ) || r == Err::<Rat, OEError>(OEError::Overflow),
        (observed_row.len() <= 4 && row_small_whole(observed_row@) && row_small_whole(
            expected_row@,
        ) && (forall|i: int|
            0 <= i < expected_row.len() ==> decimal_val(#[trigger] expected_row[i]@).num > 0))
            ==> r is Ok,
{
    let ghost tiny = observed_row.len() <= 4 && row_small_whole(observed_row@) && row_small_whole(
        expected_row@,
    ) && (forall|i: int|
        0 <= i < expected_row.len() ==> decimal_val(#[trigger] expected_row[i]@).num > 0);
    let obs = match parse_decimal_row(observed_row) {
        Some(v) => v,
        None => {
            proof {
                if tiny {
                    assert(false);
                }
            }
            return Err(OEError::NotNumeric);
        },
    };
    let exp = match parse_decimal_row(expected_row) {
        Some(v) => v,
        None => {
            proof {
                if tiny {
                    assert(false);
                }
            }
            return Err(OEError::NotNumeric);
        },
    };
    proof {
        if tiny {
            // every parsed cell is a small whole number, so the evaluator
            // is owed a statistic
            assert forall|i: int| 0 <= i < obs.len() implies (#[trigger] obs[i])@.den == 1
                && -0xFF <= obs[i]@.num <= 0xFF by {
                lemma_small_whole_value(observed_row[i]@);
                assert(obs[i]@ == decimal_val(observed_row[i]@));
            }
            assert forall|i: int| 0 <= i < exp.len() implies (#[trigger] exp[i])@.den == 1 && 0
                < exp[i]@.num <= 0xFF by {
                lemma_small_whole_value(expected_row[i]@);
                assert(exp[i]@ == decimal_val(expected_row[i]@));
            }
            assert(eval_small(obs@, exp@));
        }
    }
    let ghost ov = rat_views(obs@);
    let ghost ev = rat_views(exp@);
    let ghost dov = decimal_vals(observed_row@);
    let ghost dev = decimal_vals(expected_row@);
    proof {
        assert forall|i: int| 0 <= i < ov.len() implies frac_wf(#[trigger] ov[i]) && frac_eq(
            ov[i],
            dov[i],
        ) by {
            assert(ov[i] == obs[i]@);
            assert(dov[i] == decimal_val(observed_row[i]@));
        }
        assert forall|i: int| 0 <= i < ev.len() implies frac_wf(#[trigger] ev[i]) && frac_eq(
            ev[i],
            dev[i],
        ) by {
            assert(ev[i] == exp[i]@);
            assert(dev[i] == decimal_val(expected_row[i]@));
        }
        assert forall|i: int| 0 <= i < ev.len() implies ((#[trigger] ev[i].num <= 0) <==> dev[i].num
            <= 0) by {
            lemma_decimal_val_wf(expected_row[i]@);
            lemma_frac_nonpos_congr(ev[i], dev[i]);
        }
    }
    let stat = match evaluate(&obs, &exp) {
        Ok(x) => x,
        Err(e) => {
            proof {
                if tiny {
                    assert(false);
                }
                if e == StatError::NonPositiveExpected {
                    let i = choose|i: int|
                        0 <= i < exp.len() && (#[trigger] exp[i])@.num <= 0;
                    assert(ev[i].num <= 0);
                    assert(decimal_val(expected_row[i]@).num <= 0);
                } else {
                    assert forall|i: int|
                        0 <= i < expected_row.len() implies !(decimal_val(
                        #[trigger] expected_row[i]@,
                    ).num <= 0) by {
                        assert(!(exp[i]@.num <= 0));
                        assert(ev[i] == exp[i]@);
                        assert(dev[i] == decimal_val(expected_row[i]@));
                    }
                }
            }
            return match e {
                StatError::NonPositiveExpected => Err(OEError::NonPositiveExpected),
                _ => Err(OEError::Overflow),
            };
        },
    };
    proof {
        assert forall|i: int|
            0 <= i < expected_row.len() implies decimal_val(#[trigger] expected_row[i]@).num
            > 0 by {
            assert(exp[i]@.num > 0);
            assert(ev[i] == exp[i]@);
        }
        lemma_chi_sum_congr(ov, ev, dov, dev);
        let ghost m = chi_sum(ov, ev);
        assert forall|i: int| 0 <= i < ev.len() implies frac_wf(#[trigger] ev[i]) && ev[i].num
            > 0 by {
            assert(ev[i] == exp[i]@);
        }
        lemma_chi_sum_wf(ov, ev);
        lemma_frac_eq_trans(stat@, chi_sum(ov, ev), chi_sum(dov, dev));
    }
    Ok(stat)
}


/// The terms of the statistic, one per category.
pub open spec fn chi_terms(obs: Seq<Frac>, exp: Seq<Frac>) -> Seq<Frac> {
    Seq::new(obs.len(), |i: int| chi_term(obs[i], exp[i]))
}

/// The statistic is the sum of its terms.
pub proof fn lemma_chi_sum_as_terms(obs: Seq<Frac>, exp: Seq<Frac>)
    requires
        obs.len() == exp.len(),
    ensures
        chi_sum(obs, exp) == frac_sum(chi_terms(obs, exp)),
    decreases obs.len(),
{
    if obs.len() > 0 {
        lemma_chi_sum_as_terms(obs.drop_last(), exp.drop_last());
        assert(chi_terms(obs, exp).drop_last() =~= chi_terms(obs.drop_last(), exp.drop_last()));
        assert(chi_terms(obs, exp).last() == chi_term(obs.last(), exp.last()));
    }
}

/// The permutation law: reordering observed and expected by the same
/// permutation leaves the statistic unchanged as a value.
pub proof fn lemma_chi_sum_permutation(obs: Seq<Frac>, exp: Seq<Frac>, perm: Seq<int>)
    requires
        obs.len() == exp.len(),
        is_permutation(perm, obs.len() as int),
        forall|i: int| 0 <= i < obs.len() ==> frac_wf(#[trigger] obs[i]),
        forall|i: int| 0 <= i < exp.len() ==> frac_wf(#[trigger] exp[i]) && exp[i].num > 0,
    ensures
        frac_eq(chi_sum(reorder(obs, perm), reorder(exp, perm)), chi_sum(obs, exp)),
{
    let ts = chi_terms(obs, exp);
    let o2 = reorder(obs, perm);
    let e2 = reorder(exp, perm);
    assert(chi_terms(o2, e2) =~= reorder(ts, perm)) by {
        assert forall|i: int| 0 <= i < perm.len() implies chi_terms(o2, e2)[i] == reorder(
            ts,
            perm,
        )[i] by {
            assert(o2[i] == obs[perm[i]]);
            assert(e2[i] == exp[perm[i]]);
            assert(ts[perm[i]] == chi_term(obs[perm[i]], exp[perm[i]]));
        }
    }
    lemma_chi_sum_as_terms(obs, exp);
    lemma_chi_sum_as_terms(o2, e2);
    assert forall|i: int| 0 <= i < reorder(ts, perm).len() implies frac_wf(
        #[trigger] reorder(ts, perm)[i],
    ) by {
        assert(reorder(ts, perm)[i] == ts[perm[i]]);
        lemma_chi_term_wf(obs[perm[i]], exp[perm[i]]);
    }
    lemma_reorder_multiset(ts, perm);
    lemma_frac_sum_multiset(reorder(ts, perm), ts);
}

} // verus!
