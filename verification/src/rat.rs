//! Exact rational arithmetic.
//!
//! Every statistic this library computes is a ratio of integers, so the
//! numeric model is a fraction type `Rat` whose operations are proved to
//! return exactly the mathematical result (or to report overflow, never to
//! return a rounded or wrapped value).
//!
//! At the specification level a fraction is a `Frac`: a pair of unbounded
//! integers. Two fractions are equal as values (`frac_eq`) when they
//! cross-multiply equally.
use vstd::arithmetic::div_mod::lemma_fundamental_div_mod;
use vstd::arithmetic::mul::lemma_mul_is_associative;
use vstd::arithmetic::mul::lemma_mul_is_commutative;
use vstd::arithmetic::mul::lemma_mul_is_distributive_add_other_way;
use vstd::arithmetic::mul::lemma_mul_is_distributive_sub_other_way;
use vstd::prelude::*;

verus! {

/// Reassociation of a product of four factors: `(p*q)*(r*s) == (p*r)*(q*s)`.
proof fn lemma_mul4_pair_swap(p: int, q: int, r: int, s: int)
    ensures
        (p * q) * (r * s) == (p * r) * (q * s),
{
    lemma_mul_is_associative(p, q, r * s);
    lemma_mul_is_associative(q, r, s);
    lemma_mul_is_commutative(q, r);
    lemma_mul_is_associative(r, q, s);
    lemma_mul_is_associative(p, r, q * s);
}

/// Reassociation of a product of four factors: `(p*q)*(r*s) == (p*s)*(q*r)`.
proof fn lemma_mul4_outer_swap(p: int, q: int, r: int, s: int)
    ensures
        (p * q) * (r * s) == (p * s) * (q * r),
{
    lemma_mul_is_commutative(r, s);
    lemma_mul4_pair_swap(p, q, s, r);
}

/// Reassociation of a product of three factors: `(p*q)*r == (p*r)*q`.
proof fn lemma_mul3_swap(p: int, q: int, r: int)
    ensures
        (p * q) * r == (p * r) * q,
{
    lemma_mul_is_associative(p, q, r);
    lemma_mul_is_commutative(q, r);
    lemma_mul_is_associative(p, r, q);
}

/// The absolute value of an integer.
pub open spec fn int_abs(x: int) -> int {
    if x >= 0 {
        x
    } else {
        -x
    }
}

/// `x^k` over the integers.
pub open spec fn ipow(x: int, k: nat) -> int
    decreases k,
{
    if k == 0 {
        1
    } else {
        x * ipow(x, (k - 1) as nat)
    }
}

/// Positive powers of a positive base.
pub proof fn lemma_ipow_pos(x: int, k: nat)
    requires
        x > 0,
    ensures
        ipow(x, k) > 0,
    decreases k,
{
    if k > 0 {
        lemma_ipow_pos(x, (k - 1) as nat);
        assert(x * ipow(x, (k - 1) as nat) > 0) by (nonlinear_arith)
            requires
                x > 0,
                ipow(x, (k - 1) as nat) > 0,
        ;
    }
}

/// Powers of a positive base do not decrease.
pub proof fn lemma_ipow_mono(x: int, j: nat, k: nat)
    requires
        x >= 1,
        j <= k,
    ensures
        ipow(x, j) <= ipow(x, k),
    decreases k,
{
    if j < k {
        lemma_ipow_mono(x, j, (k - 1) as nat);
        lemma_ipow_pos(x, (k - 1) as nat);
        assert(ipow(x, (k - 1) as nat) <= x * ipow(x, (k - 1) as nat)) by (nonlinear_arith)
            requires
                x >= 1,
                ipow(x, (k - 1) as nat) > 0,
        ;
    }
}

/// A mathematical fraction: `num / den`. Specification-level only.
pub struct Frac {
    pub num: int,
    pub den: int,
}

/// A fraction makes sense when its denominator is positive.
pub open spec fn frac_wf(a: Frac) -> bool {
    a.den > 0
}

/// Value equality of fractions: `a.num / a.den == b.num / b.den`,
/// stated by cross-multiplication.
pub open spec fn frac_eq(a: Frac, b: Frac) -> bool {
    a.num * b.den == b.num * a.den
}

pub open spec fn frac_from_int(n: int) -> Frac {
    Frac { num: n, den: 1 }
}

pub open spec fn frac_add(a: Frac, b: Frac) -> Frac {
    Frac { num: a.num * b.den + b.num * a.den, den: a.den * b.den }
}

pub open spec fn frac_sub(a: Frac, b: Frac) -> Frac {
    Frac { num: a.num * b.den - b.num * a.den, den: a.den * b.den }
}

pub open spec fn frac_mul(a: Frac, b: Frac) -> Frac {
    Frac { num: a.num * b.num, den: a.den * b.den }
}

pub open spec fn frac_div(a: Frac, b: Frac) -> Frac {
    Frac { num: a.num * b.den, den: a.den * b.num }
}

/// The sum of a sequence of fractions, left to right.
pub open spec fn frac_sum(s: Seq<Frac>) -> Frac
    decreases s.len(),
{
    if s.len() == 0 {
        frac_from_int(0)
    } else {
        frac_add(frac_sum(s.drop_last()), s.last())
    }
}

/// Transitivity of value equality, valid when the middle denominator is
/// nonzero.
pub proof fn lemma_frac_eq_trans(a: Frac, b: Frac, c: Frac)
    requires
        b.den != 0,
        frac_eq(a, b),
        frac_eq(b, c),
    ensures
        frac_eq(a, c),
{
    assert(a.num * c.den == c.num * a.den) by (nonlinear_arith)
        requires
            b.den != 0,
            a.num * b.den == b.num * a.den,
            b.num * c.den == c.num * b.den,
    ;
}

/// Addition respects value equality.
pub proof fn lemma_frac_add_congr(a: Frac, a2: Frac, b: Frac, b2: Frac)
    requires
        frac_eq(a, a2),
        frac_eq(b, b2),
    ensures
        frac_eq(frac_add(a, b), frac_add(a2, b2)),
{
    lemma_mul_is_distributive_add_other_way(a2.den * b2.den, a.num * b.den, b.num * a.den);
    lemma_mul4_pair_swap(a.num, b.den, a2.den, b2.den);
    lemma_mul4_outer_swap(b.num, a.den, a2.den, b2.den);
    lemma_mul_is_distributive_add_other_way(a.den * b.den, a2.num * b2.den, b2.num * a2.den);
    lemma_mul4_pair_swap(a2.num, b2.den, a.den, b.den);
    lemma_mul4_outer_swap(b2.num, a2.den, a.den, b.den);
    lemma_mul_is_commutative(b.den, b2.den);
    lemma_mul_is_commutative(a.den, a2.den);
}

/// Subtraction respects value equality.
pub proof fn lemma_frac_sub_congr(a: Frac, a2: Frac, b: Frac, b2: Frac)
    requires
        frac_eq(a, a2),
        frac_eq(b, b2),
    ensures
        frac_eq(frac_sub(a, b), frac_sub(a2, b2)),
{
    lemma_mul_is_distributive_sub_other_way(a2.den * b2.den, a.num * b.den, b.num * a.den);
    lemma_mul4_pair_swap(a.num, b.den, a2.den, b2.den);
    lemma_mul4_outer_swap(b.num, a.den, a2.den, b2.den);
    lemma_mul_is_distributive_sub_other_way(a.den * b.den, a2.num * b2.den, b2.num * a2.den);
    lemma_mul4_pair_swap(a2.num, b2.den, a.den, b.den);
    lemma_mul4_outer_swap(b2.num, a2.den, a.den, b.den);
    lemma_mul_is_commutative(b.den, b2.den);
    lemma_mul_is_commutative(a.den, a2.den);
}

/// Multiplication respects value equality.
pub proof fn lemma_frac_mul_congr(a: Frac, a2: Frac, b: Frac, b2: Frac)
    requires
        frac_eq(a, a2),
        frac_eq(b, b2),
    ensures
        frac_eq(frac_mul(a, b), frac_mul(a2, b2)),
{
    assert((a.num * b.num) * (a2.den * b2.den) == (a.num * a2.den) * (b.num * b2.den))
        by (nonlinear_arith);
    assert((a2.num * b2.num) * (a.den * b.den) == (a2.num * a.den) * (b2.num * b.den))
        by (nonlinear_arith);
    assert(b.num * b2.den == b2.den * b.num && b2.num * b.den == b.den * b2.num)
        by (nonlinear_arith);
}

/// Division respects value equality.
pub proof fn lemma_frac_div_congr(a: Frac, a2: Frac, b: Frac, b2: Frac)
    requires
        frac_eq(a, a2),
        frac_eq(b, b2),
    ensures
        frac_eq(frac_div(a, b), frac_div(a2, b2)),
{
    assert((a.num * b.den) * (a2.den * b2.num) == (a.num * a2.den) * (b2.num * b.den))
        by (nonlinear_arith);
    assert((a2.num * b2.den) * (a.den * b.num) == (a2.num * a.den) * (b.num * b2.den))
        by (nonlinear_arith);
}

/// Adding zero changes nothing, as values.
pub proof fn lemma_frac_add_zero(a: Frac)
    ensures
        frac_eq(frac_add(a, frac_from_int(0)), a),
        frac_eq(frac_add(frac_from_int(0), a), a),
{
    assert((a.num * 1 + 0 * a.den) * a.den == a.num * (a.den * 1)) by (nonlinear_arith);
    assert((0 * a.den + a.num * 1) * a.den == a.num * (1 * a.den)) by (nonlinear_arith);
}

/// Addition of fractions is associative up to value equality.
pub proof fn lemma_frac_add_assoc(a: Frac, b: Frac, c: Frac)
    ensures
        frac_eq(frac_add(frac_add(a, b), c), frac_add(a, frac_add(b, c))),
{
    lemma_mul_is_distributive_add_other_way(c.den, a.num * b.den, b.num * a.den);
    lemma_mul_is_distributive_add_other_way(a.den, b.num * c.den, c.num * b.den);
    lemma_mul_is_associative(a.num, b.den, c.den);
    lemma_mul3_swap(b.num, a.den, c.den);
    lemma_mul_is_commutative(a.den, b.den);
    lemma_mul_is_associative(c.num, b.den, a.den);
    lemma_mul_is_associative(a.den, b.den, c.den);
}

/// Well-formedness is preserved by the arithmetic on fractions.
pub proof fn lemma_frac_ops_wf(a: Frac, b: Frac)
    requires
        frac_wf(a),
        frac_wf(b),
    ensures
        frac_wf(frac_add(a, b)),
        frac_wf(frac_sub(a, b)),
        frac_wf(frac_mul(a, b)),
        b.num > 0 ==> frac_wf(frac_div(a, b)),
{
    assert(a.den * b.den > 0) by (nonlinear_arith)
        requires
            a.den > 0,
            b.den > 0,
    ;
    if b.num > 0 {
        assert(a.den * b.num > 0) by (nonlinear_arith)
            requires
                a.den > 0,
                b.num > 0,
        ;
    }
}

/// The sum of well-formed fractions is well-formed.
pub proof fn lemma_frac_sum_wf(s: Seq<Frac>)
    requires
        forall|i: int| 0 <= i < s.len() ==> frac_wf(#[trigger] s[i]),
    ensures
        frac_wf(frac_sum(s)),
    decreases s.len(),
{
    if s.len() > 0 {
        lemma_frac_sum_wf(s.drop_last());
        lemma_frac_ops_wf(frac_sum(s.drop_last()), s.last());
    }
}

/// Summing a concatenation is, as a value, the sum of the two sums.
pub proof fn lemma_frac_sum_concat(a: Seq<Frac>, b: Seq<Frac>)
    requires
        forall|i: int| 0 <= i < a.len() ==> frac_wf(#[trigger] a[i]),
        forall|i: int| 0 <= i < b.len() ==> frac_wf(#[trigger] b[i]),
    ensures
        frac_eq(frac_sum(a + b), frac_add(frac_sum(a), frac_sum(b))),
    decreases b.len(),
{
    lemma_frac_sum_wf(a);
    lemma_frac_sum_wf(b);
    lemma_frac_ops_wf(frac_sum(a), frac_sum(b));
    if b.len() == 0 {
        assert(a + b =~= a);
        lemma_frac_add_zero(frac_sum(a));
        lemma_frac_sum_wf(a);
    } else {
        let bd = b.drop_last();
        assert(forall|i: int| 0 <= i < bd.len() ==> frac_wf(#[trigger] bd[i]));
        lemma_frac_sum_concat(a, bd);
        lemma_frac_sum_wf(bd);
        assert((a + b).drop_last() =~= a + bd);
        lemma_frac_ops_wf(frac_sum(a), frac_sum(bd));
        lemma_frac_add_congr(
            frac_sum(a + bd),
            frac_add(frac_sum(a), frac_sum(bd)),
            b.last(),
            b.last(),
        );
        lemma_frac_add_assoc(frac_sum(a), frac_sum(bd), b.last());
        lemma_frac_ops_wf(frac_sum(bd), b.last());
        lemma_frac_ops_wf(frac_add(frac_sum(a), frac_sum(bd)), b.last());
        lemma_frac_eq_trans(
            frac_sum(a + b),
            frac_add(frac_add(frac_sum(a), frac_sum(bd)), b.last()),
            frac_add(frac_sum(a), frac_add(frac_sum(bd), b.last())),
        );
        assert(frac_sum(b) == frac_add(frac_sum(bd), b.last()));
    }
}

/// Comparison against the threshold `k` respects value equality.
pub proof fn lemma_frac_lt_int_congr(a: Frac, b: Frac, k: int)
    requires
        frac_wf(a),
        frac_wf(b),
        frac_eq(a, b),
    ensures
        (a.num < k * a.den) <==> (b.num < k * b.den),
{
    assert((a.num < k * a.den) <==> (b.num < k * b.den)) by (nonlinear_arith)
        requires
            a.den > 0,
            b.den > 0,
            a.num * b.den == b.num * a.den,
    ;
}

/// Being nonpositive respects value equality.
pub proof fn lemma_frac_nonpos_congr(a: Frac, b: Frac)
    requires
        frac_wf(a),
        frac_wf(b),
        frac_eq(a, b),
    ensures
        (a.num <= 0) <==> (b.num <= 0),
{
    assert((a.num <= 0) <==> (b.num <= 0)) by (nonlinear_arith)
        requires
            a.den > 0,
            b.den > 0,
            a.num * b.den == b.num * a.den,
    ;
}

/// The sum of well-formed nonnegative fractions is nonnegative.
pub proof fn lemma_frac_sum_nonneg(s: Seq<Frac>)
    requires
        forall|i: int| 0 <= i < s.len() ==> frac_wf(#[trigger] s[i]) && s[i].num >= 0,
    ensures
        frac_wf(frac_sum(s)),
        frac_sum(s).num >= 0,
    decreases s.len(),
{
    if s.len() > 0 {
        lemma_frac_sum_nonneg(s.drop_last());
        let a = frac_sum(s.drop_last());
        let b = s.last();
        lemma_frac_ops_wf(a, b);
        assert(a.num * b.den + b.num * a.den >= 0) by (nonlinear_arith)
            requires
                a.num >= 0,
                b.num >= 0,
                a.den > 0,
                b.den > 0,
        ;
    }
}

/// Adding a fraction that is at least `k` to a nonnegative fraction gives a
/// result that is at least `k`, for a nonnegative threshold `k`.
pub proof fn lemma_frac_add_reaches(a: Frac, b: Frac, k: int)
    requires
        frac_wf(a),
        frac_wf(b),
        a.num >= 0,
        b.num >= k * b.den,
        k >= 0,
    ensures
        frac_add(a, b).num >= k * frac_add(a, b).den,
        frac_add(b, a).num >= k * frac_add(b, a).den,
{
    assert(a.num * b.den + b.num * a.den >= k * (a.den * b.den) && b.num * a.den + a.num * b.den
        >= k * (b.den * a.den)) by (nonlinear_arith)
        requires
            a.den > 0,
            b.den > 0,
            a.num >= 0,
            b.num >= k * b.den,
            k >= 0,
    ;
}

/// An executable rational number. The denominator is always positive.
#[derive(Clone, Copy, Debug)]
pub struct Rat {
    pub num: i64,
    pub den: i64,
}

impl View for Rat {
    type V = Frac;

    open spec fn view(&self) -> Frac {
        Frac { num: self.num as int, den: self.den as int }
    }
}

proof fn lemma_i64_mul_bound(a: int, b: int)
    requires
        -0x8000_0000_0000_0000 <= a <= 0x7FFF_FFFF_FFFF_FFFF,
        0 < b <= 0x7FFF_FFFF_FFFF_FFFF,
    ensures
        -0x4000_0000_0000_0000_0000_0000_0000_0000 < a * b
            < 0x4000_0000_0000_0000_0000_0000_0000_0000,
        a > 0 ==> a * b > 0,
        a >= 0 ==> a * b >= 0,
        a < 0 ==> a * b < 0,
        b * a == a * b,
{
    assert(-0x4000_0000_0000_0000_0000_0000_0000_0000 < a * b
        < 0x4000_0000_0000_0000_0000_0000_0000_0000 && (a > 0 ==> a * b > 0) && (a >= 0 ==> a * b
        >= 0) && (a < 0 ==> a * b < 0) && b * a == a * b) by (nonlinear_arith)
        requires
            -0x8000_0000_0000_0000 <= a <= 0x7FFF_FFFF_FFFF_FFFF,
            0 < b <= 0x7FFF_FFFF_FFFF_FFFF,
    ;
}

impl Rat {
    /// Positive denominator; every operation keeps this.
    pub open spec fn wf(&self) -> bool {
        self.den > 0
    }

    /// The whole number `n` as a rational.
    pub fn from_int(n: i64) -> (r: Rat)
        ensures
            r.wf(),
            r@ == frac_from_int(n as int),
    {
        Rat { num: n, den: 1 }
    }

    /// Builds `num / den`; rejects a zero denominator. A negative denominator
    /// is folded into the numerator.
    pub fn new(num: i64, den: i64) -> (r: Option<Rat>)
        ensures
            r is Some ==> r.unwrap().wf() && frac_eq(
                r.unwrap()@,
                (Frac { num: num as int, den: den as int }),
            ),
            r is Some ==> r.unwrap()@.den <= int_abs(den as int) && int_abs(r.unwrap()@.num)
                <= int_abs(num as int),
            den == 0 ==> r is None,
            den > 0 ==> r is Some,
            den != 0 && num > i64::MIN && den > i64::MIN ==> r is Some,
    {
        if den == 0 {
            return None;
        }
        let mut n = num as i128;
        let mut d = den as i128;
        if d < 0 {
            n = -n;
            d = -d;
        }
        let r = Self::reduce128(n, d);
        proof {
            if r is Some {
                let rv = r.unwrap()@;
                assert(rv.num * (den as int) == (num as int) * rv.den) by (nonlinear_arith)
                    requires
                        rv.num * (d as int) == (n as int) * rv.den,
                        (d as int == den as int && n as int == num as int) || (d as int == -(den
                            as int) && n as int == -(num as int)),
                ;
            }
        }
        r
    }

    /// Reduces the 128-bit fraction `n / d` and returns it as a `Rat` when it
    /// fits; the reduced fraction has exactly the value `n / d`.
    fn reduce128(n: i128, d: i128) -> (r: Option<Rat>)
        requires
            d > 0,
            n > i128::MIN,
        ensures
            r is Some ==> r.unwrap().wf() && (r.unwrap()@.num * d == n * r.unwrap()@.den),
            r is Some ==> r.unwrap()@.den <= d && int_abs(r.unwrap()@.num) <= int_abs(n as int),
            -0x8000_0000_0000_0000 <= n <= 0x7FFF_FFFF_FFFF_FFFF && d <= 0x7FFF_FFFF_FFFF_FFFF
                ==> r is Some,
    {
        let neg = n < 0;
        let na: u128 = if neg {
            (-n) as u128
        } else {
            n as u128
        };
        let du: u128 = d as u128;
        let g = Self::gcd_u128(du, na);
        let (nr, dr): (u128, u128) = if na % g == 0 && du % g == 0 {
            proof {
                lemma_fundamental_div_mod(na as int, g as int);
                lemma_fundamental_div_mod(du as int, g as int);
                assert((na / g) as int <= na as int && (du / g) as int <= du as int && (du / g)
                    as int >= 1) by (nonlinear_arith)
                    requires
                        g >= 1,
                        na as int == (g as int) * ((na / g) as int),
                        du as int == (g as int) * ((du / g) as int),
                        du as int >= 1,
                ;
            }
            (na / g, du / g)
        } else {
            (na, du)
        };
        proof {
            assert((nr as int) * (du as int) == (na as int) * (dr as int)) by (nonlinear_arith)
                requires
                    ((na as int) == (g as int) * (nr as int) && (du as int) == (g as int) * (dr
                        as int)) || ((na as int) == (nr as int) && (du as int) == (dr as int)),
            ;
        }
        if dr >= 1 && dr <= 0x7FFF_FFFF_FFFF_FFFF {
            let num: i64 = if neg {
                if nr <= 0x8000_0000_0000_0000 {
                    (-(nr as i128)) as i64
                } else {
                    return None;
                }
            } else {
                if nr <= 0x7FFF_FFFF_FFFF_FFFF {
                    nr as i64
                } else {
                    return None;
                }
            };
            let r = Rat { num, den: dr as i64 };
            proof {
                assert((r@.num) * d == n * (r@.den)) by (nonlinear_arith)
                    requires
                        (nr as int) * (du as int) == (na as int) * (dr as int),
                        du as int == d as int,
                        r@.den == dr as int,
                        (r@.num == -(nr as int) && na as int == -(n as int)) || (r@.num == nr
                            as int && na as int == n as int),
                ;
            }
            Some(r)
        } else {
            None
        }
    }

    /// Greatest common divisor by Euclid's algorithm. Only positivity is
    /// relied on; the caller checks divisibility of the result at run time.
    fn gcd_u128(a: u128, b: u128) -> (g: u128)
        requires
            a > 0,
        ensures
            g > 0,
    {
        let mut x = a;
        let mut y = b;
        while y != 0
            invariant
                x > 0,
            decreases y,
        {
            let t = x % y;
            x = y;
            y = t;
        }
        x
    }

    /// Exact addition; `None` means the result cannot be represented.
    pub fn add(&self, other: &Rat) -> (r: Option<Rat>)
        requires
            self.wf(),
            other.wf(),
        ensures
            r is Some ==> r.unwrap().wf() && frac_eq(r.unwrap()@, frac_add(self@, other@)),
            r is Some ==> r.unwrap()@.den <= frac_add(self@, other@).den && int_abs(
                r.unwrap()@.num,
            ) <= int_abs(frac_add(self@, other@).num),
            -0x8000_0000_0000_0000 <= frac_add(self@, other@).num <= 0x7FFF_FFFF_FFFF_FFFF
                && frac_add(self@, other@).den <= 0x7FFF_FFFF_FFFF_FFFF ==> r is Some,
    {
        proof {
            lemma_i64_mul_bound(self.num as int, other.den as int);
            lemma_i64_mul_bound(other.num as int, self.den as int);
            lemma_i64_mul_bound(self.den as int, other.den as int);
        }
        let n = (self.num as i128) * (other.den as i128) + (other.num as i128) * (self.den as i128);
        let d = (self.den as i128) * (other.den as i128);
        Self::reduce128(n, d)
    }

    /// Exact subtraction; `None` means the result cannot be represented.
    pub fn sub(&self, other: &Rat) -> (r: Option<Rat>)
        requires
            self.wf(),
            other.wf(),
        ensures
            r is Some ==> r.unwrap().wf() && frac_eq(r.unwrap()@, frac_sub(self@, other@)),
            r is Some ==> r.unwrap()@.den <= frac_sub(self@, other@).den && int_abs(
                r.unwrap()@.num,
            ) <= int_abs(frac_sub(self@, other@).num),
            -0x8000_0000_0000_0000 <= frac_sub(self@, other@).num <= 0x7FFF_FFFF_FFFF_FFFF
                && frac_sub(self@, other@).den <= 0x7FFF_FFFF_FFFF_FFFF ==> r is Some,
    {
        proof {
            lemma_i64_mul_bound(self.num as int, other.den as int);
            lemma_i64_mul_bound(other.num as int, self.den as int);
            lemma_i64_mul_bound(self.den as int, other.den as int);
        }
        let n = (self.num as i128) * (other.den as i128) - (other.num as i128) * (self.den as i128);
        let d = (self.den as i128) * (other.den as i128);
        Self::reduce128(n, d)
    }

    /// Exact multiplication; `None` means the result cannot be represented.
    pub fn mul(&self, other: &Rat) -> (r: Option<Rat>)
        requires
            self.wf(),
            other.wf(),
        ensures
            r is Some ==> r.unwrap().wf() && frac_eq(r.unwrap()@, frac_mul(self@, other@)),
            r is Some ==> r.unwrap()@.den <= frac_mul(self@, other@).den && int_abs(
                r.unwrap()@.num,
            ) <= int_abs(frac_mul(self@, other@).num),
            -0x8000_0000_0000_0000 <= frac_mul(self@, other@).num <= 0x7FFF_FFFF_FFFF_FFFF
                && frac_mul(self@, other@).den <= 0x7FFF_FFFF_FFFF_FFFF ==> r is Some,
    {
        proof {
            lemma_i64_mul_bound(self.den as int, other.den as int);
            assert(-0x4000_0000_0000_0000_0000_0000_0000_0000 <= (self.num as int) * (other.num
                as int) <= 0x4000_0000_0000_0000_0000_0000_0000_0000) by (nonlinear_arith)
                requires
                    -0x8000_0000_0000_0000 <= self.num as int <= 0x7FFF_FFFF_FFFF_FFFF,
                    -0x8000_0000_0000_0000 <= other.num as int <= 0x7FFF_FFFF_FFFF_FFFF,
            ;
        }
        let n = (self.num as i128) * (other.num as i128);
        let d = (self.den as i128) * (other.den as i128);
        Self::reduce128(n, d)
    }

    /// Exact division by a nonzero rational; `None` means the result cannot
    /// be represented.
    pub fn div(&self, other: &Rat) -> (r: Option<Rat>)
        requires
            self.wf(),
            other.wf(),
            other@.num != 0,
        ensures
            r is Some ==> r.unwrap().wf() && frac_eq(r.unwrap()@, frac_div(self@, other@)),
            r is Some ==> r.unwrap()@.den <= int_abs(frac_div(self@, other@).den) && int_abs(
                r.unwrap()@.num,
            ) <= int_abs(frac_div(self@, other@).num),
            int_abs(frac_div(self@, other@).num) <= 0x7FFF_FFFF_FFFF_FFFF && int_abs(
                frac_div(self@, other@).den,
            ) <= 0x7FFF_FFFF_FFFF_FFFF ==> r is Some,
    {
        proof {
            lemma_i64_mul_bound(self.num as int, other.den as int);
            lemma_i64_mul_bound(other.num as int, self.den as int);
        }
        let mut n = (self.num as i128) * (other.den as i128);
        let mut d = (self.den as i128) * (other.num as i128);
        proof {
            assert(d as int != 0) by (nonlinear_arith)
                requires
                    d as int == (self.den as int) * (other.num as int),
                    self.den as int > 0,
                    other.num as int != 0,
            ;
        }
        if d < 0 {
            n = -n;
            d = -d;
        }
        let ghost fd = frac_div(self@, other@);
        let r = Self::reduce128(n, d);
        proof {
            if r is Some {
                let rv = r.unwrap()@;
                assert(rv.num * fd.den == fd.num * rv.den) by (nonlinear_arith)
                    requires
                        rv.num * (d as int) == (n as int) * rv.den,
                        (d as int == fd.den && n as int == fd.num) || (d as int == -fd.den
                            && n as int == -fd.num),
                ;
            }
        }
        r
    }

    /// Exactly whether `self < k` for a whole number `k`.
    pub fn lt_int(&self, k: i64) -> (r: bool)
        requires
            self.wf(),
        ensures
            r <==> self@.num < k as int * self@.den,
    {
        proof {
            lemma_i64_mul_bound(k as int, self.den as int);
        }
        (self.num as i128) < (k as i128) * (self.den as i128)
    }

    /// Exactly whether `self >= 0`.
    pub fn is_nonneg(&self) -> (r: bool)
        requires
            self.wf(),
        ensures
            r <==> self@.num >= 0,
    {
        self.num >= 0
    }

    /// Exactly whether `self <= 1`.
    pub fn le_one(&self) -> (r: bool)
        requires
            self.wf(),
        ensures
            r <==> self@.num <= self@.den,
    {
        self.num <= self.den
    }

    /// Exactly whether the two rationals have the same value.
    pub fn eq_value(&self, other: &Rat) -> (r: bool)
        requires
            self.wf(),
            other.wf(),
        ensures
            r <==> frac_eq(self@, other@),
    {
        proof {
            lemma_i64_mul_bound(self.num as int, other.den as int);
            lemma_i64_mul_bound(other.num as int, self.den as int);
        }
        (self.num as i128) * (other.den as i128) == (other.num as i128) * (self.den as i128)
    }
}

/// The views of a sequence of rationals.
pub open spec fn rat_views(s: Seq<Rat>) -> Seq<Frac> {
    s.map_values(|r: Rat| r@)
}

/// Whole numbers as fractions.
pub open spec fn int_to_fracs(s: Seq<int>) -> Seq<Frac> {
    s.map_values(|x: int| Frac { num: x, den: 1 })
}

/// The exact sum of `v[lo..hi]`; `None` means an intermediate value could
/// not be represented.
pub fn sum_range(v: &Vec<Rat>, lo: usize, hi: usize) -> (r: Option<Rat>)
    requires
        lo <= hi <= v.len(),
        forall|i: int| 0 <= i < v.len() ==> (#[trigger] v[i]).wf(),
    ensures
        r is Some ==> r.unwrap().wf() && frac_eq(
            r.unwrap()@,
            frac_sum(rat_views(v@).subrange(lo as int, hi as int)),
        ),
        hi - lo <= 0x1_0000_0000 && (forall|i: int|
            lo <= i < hi ==> (#[trigger] v[i])@.den == 1 && int_abs(v[i]@.num) <= 0x4000_0000)
            ==> r is Some,
{
    let ghost sv = rat_views(v@);
    let ghost small = hi - lo <= 0x1_0000_0000 && (forall|i: int|
        lo <= i < hi ==> (#[trigger] v[i])@.den == 1 && int_abs(v[i]@.num) <= 0x4000_0000);
    let mut acc = Rat::from_int(0);
    let mut j: usize = lo;
    while j < hi
        invariant
            lo <= j <= hi <= v.len(),
            sv == rat_views(v@),
            small == (hi - lo <= 0x1_0000_0000 && (forall|i: int|
                lo <= i < hi ==> (#[trigger] v[i])@.den == 1 && int_abs(v[i]@.num)
                    <= 0x4000_0000)),
            forall|i: int| 0 <= i < v.len() ==> (#[trigger] v[i]).wf(),
            acc.wf(),
            frac_eq(acc@, frac_sum(sv.subrange(lo as int, j as int))),
            small ==> acc@.den == 1 && int_abs(acc@.num) <= (j - lo) * 0x4000_0000,
        decreases hi - j,
    {
        proof {
            if small {
                // every addition of whole bounded entries stays representable
                let f = frac_add(acc@, v[j as int]@);
                assert(f.den == 1);
                assert(int_abs(f.num) <= (j - lo) * 0x4000_0000 + 0x4000_0000);
                assert((j - lo) * 0x4000_0000 + 0x4000_0000 <= 0x1_0000_0001 * 0x4000_0000);
            }
        }
        let acc2 = match acc.add(&v[j]) {
            Some(x) => x,
            None => {
                proof {
                    if small {
                        assert(false);
                    }
                }
                return None;
            },
        };
        proof {
            let pre = sv.subrange(lo as int, j as int);
            let post = sv.subrange(lo as int, j + 1);
            assert(post.drop_last() =~= pre);
            assert(post.last() == sv[j as int]);
            assert(forall|i: int| 0 <= i < pre.len() ==> frac_wf(#[trigger] pre[i]));
            lemma_frac_sum_wf(pre);
            lemma_frac_add_congr(acc@, frac_sum(pre), v[j as int]@, sv[j as int]);
            lemma_frac_ops_wf(acc@, v[j as int]@);
            lemma_frac_eq_trans(acc2@, frac_add(acc@, v[j as int]@), frac_sum(post));
            if small {
                assert(acc2@.den >= 1);
                assert(acc2@.den <= frac_add(acc@, v[j as int]@).den);
            }
        }
        acc = acc2;
        j = j + 1;
    }
    Some(acc)
}


/// Swapping the operands of an addition keeps its value.
pub proof fn lemma_frac_add_comm(a: Frac, b: Frac)
    ensures
        frac_eq(frac_add(a, b), frac_add(b, a)),
{
    lemma_mul_is_commutative(a.den, b.den);
    lemma_mul_is_commutative(a.num * b.den + b.num * a.den, a.den * b.den);
}

/// A sequence reindexed by a permutation of its positions.
pub open spec fn reorder(s: Seq<Frac>, perm: Seq<int>) -> Seq<Frac> {
    Seq::new(perm.len(), |i: int| s[perm[i]])
}

/// An index sequence that hits each position of a length-`n` sequence
/// exactly once.
pub open spec fn is_permutation(perm: Seq<int>, n: int) -> bool {
    &&& perm.len() == n
    &&& (forall|i: int| 0 <= i < perm.len() ==> 0 <= #[trigger] perm[i] < n)
    &&& (forall|i: int, j: int|
        0 <= i < perm.len() && 0 <= j < perm.len() && i != j ==> perm[i] != perm[j])
}

/// Reindexing by a permutation keeps the multiset of elements.
pub proof fn lemma_reorder_multiset(s: Seq<Frac>, perm: Seq<int>)
    requires
        is_permutation(perm, s.len() as int),
    ensures
        reorder(s, perm).to_multiset() == s.to_multiset(),
    decreases s.len(),
{
    broadcast use vstd::seq_lib::group_to_multiset_ensures;

    let n = s.len() as int;
    let t = reorder(s, perm);
    if n == 0 {
        assert(t =~= s);
    } else {
        let j = perm[n - 1];
        let x = s[j];
        let s2 = s.remove(j);
        assert(s2 =~= s.take(j) + s.skip(j + 1));
        // the permutation of the remaining positions, with indices past the
        // removed one shifted down
        let perm2 = Seq::new((n - 1) as nat, |i: int| if perm[i] > j {
            perm[i] - 1
        } else {
            perm[i]
        });
        assert forall|i: int| 0 <= i < perm2.len() implies 0 <= #[trigger] perm2[i] < n - 1 by {
            assert(perm[i] != j);
        }
        assert forall|i1: int, i2: int|
            0 <= i1 < perm2.len() && 0 <= i2 < perm2.len() && i1 != i2 implies perm2[i1]
            != perm2[i2] by {
            assert(perm[i1] != j && perm[i2] != j && perm[i1] != perm[i2]);
        }
        assert(is_permutation(perm2, n - 1));
        lemma_reorder_multiset(s2, perm2);
        assert forall|i: int| 0 <= i < n - 1 implies t.drop_last()[i] == reorder(s2, perm2)[i] by {
            assert(perm[i] != j);
            if perm[i] > j {
                assert(s2[perm[i] - 1] == s[perm[i]]);
            } else {
                assert(s2[perm[i]] == s[perm[i]]);
            }
        }
        assert(t.drop_last() =~= reorder(s2, perm2));
        // stitch the multisets back together
        assert(t =~= t.drop_last().push(t.last()));
        assert(t.last() == x);
        assert(t.to_multiset() =~= t.drop_last().to_multiset().insert(x));
        assert(s2.to_multiset() =~= s.to_multiset().remove(x));
        assert(s.contains(x));
        assert(s.to_multiset().count(x) > 0);
        assert(t.to_multiset() =~= s.to_multiset().remove(x).insert(x));
        assert(s.to_multiset().remove(x).insert(x) =~= s.to_multiset());
    }
}

/// Two sequences holding the same multiset of well-formed fractions have,
/// as values, the same sum: addition of fractions is commutative and
/// associative up to value equality.
pub proof fn lemma_frac_sum_multiset(s1: Seq<Frac>, s2: Seq<Frac>)
    requires
        forall|i: int| 0 <= i < s1.len() ==> frac_wf(#[trigger] s1[i]),
        s1.to_multiset() == s2.to_multiset(),
    ensures
        frac_eq(frac_sum(s1), frac_sum(s2)),
    decreases s2.len(),
{
    broadcast use vstd::seq_lib::group_to_multiset_ensures;

    assert(s1.to_multiset().len() == s1.len());
    assert(s2.to_multiset().len() == s2.len());
    assert(s1.len() == s2.len());
    if s2.len() == 0 {
        assert(s1 =~= s2);
    } else {
        let x = s2.last();
        assert(s2.contains(x));
        assert(s1.to_multiset().count(x) > 0);
        assert(s1.contains(x));
        let j = choose|j: int| 0 <= j < s1.len() && s1[j] == x;
        let rest = s1.remove(j);
        assert(rest =~= s1.take(j) + s1.skip(j + 1));
        assert(forall|i: int| 0 <= i < rest.len() ==> frac_wf(#[trigger] rest[i]));
        // the multisets without x still agree
        assert(rest.to_multiset() =~= s1.to_multiset().remove(x));
        assert(s2 =~= s2.drop_last().push(x));
        assert(s2.to_multiset() =~= s2.drop_last().to_multiset().insert(x));
        assert(s2.drop_last().to_multiset() =~= s2.to_multiset().remove(x));
        assert(rest.to_multiset() =~= s2.drop_last().to_multiset());
        lemma_frac_sum_multiset(rest, s2.drop_last());
        // sum(s1) is, as a value, sum(rest) + x
        let pa = s1.take(j);
        let pb = seq![x];
        let pc = s1.skip(j + 1);
        assert(forall|i: int| 0 <= i < pa.len() ==> frac_wf(#[trigger] pa[i]));
        assert(forall|i: int| 0 <= i < pb.len() ==> frac_wf(#[trigger] pb[i]));
        assert(forall|i: int| 0 <= i < pc.len() ==> frac_wf(#[trigger] pc[i]));
        assert(s1 =~= (pa + pb) + pc);
        assert(forall|i: int| 0 <= i < (pa + pb).len() ==> frac_wf(#[trigger] (pa + pb)[i]));
        lemma_frac_sum_concat(pa + pb, pc);
        lemma_frac_sum_concat(pa, pb);
        lemma_frac_sum_concat(pa, pc);
        lemma_frac_sum_wf(pa);
        lemma_frac_sum_wf(pb);
        lemma_frac_sum_wf(pc);
        lemma_frac_sum_wf(pa + pb);
        lemma_frac_sum_wf(rest);
        assert(pb.drop_last() =~= Seq::<Frac>::empty());
        assert(frac_sum(Seq::<Frac>::empty()) == frac_from_int(0));
        assert(pb.last() == x);
        assert(frac_sum(pb) == frac_add(frac_from_int(0), x));
        lemma_frac_add_zero(x);
        lemma_frac_ops_wf(frac_from_int(0), x);
        // sum(s1) ~ add(add(sum pa, sum pb), sum pc)
        lemma_frac_add_congr(
            frac_sum(pa + pb),
            frac_add(frac_sum(pa), frac_sum(pb)),
            frac_sum(pc),
            frac_sum(pc),
        );
        lemma_frac_ops_wf(frac_sum(pa + pb), frac_sum(pc));
        lemma_frac_eq_trans(
            frac_sum(s1),
            frac_add(frac_sum(pa + pb), frac_sum(pc)),
            frac_add(frac_add(frac_sum(pa), frac_sum(pb)), frac_sum(pc)),
        );
        // rearrange: add(add(A, B), C) ~ add(add(A, C), B)
        lemma_frac_add_assoc(frac_sum(pa), frac_sum(pb), frac_sum(pc));
        lemma_frac_add_comm(frac_sum(pb), frac_sum(pc));
        lemma_frac_add_congr(
            frac_sum(pa),
            frac_sum(pa),
            frac_add(frac_sum(pb), frac_sum(pc)),
            frac_add(frac_sum(pc), frac_sum(pb)),
        );
        lemma_frac_add_assoc(frac_sum(pa), frac_sum(pc), frac_sum(pb));
        lemma_frac_ops_wf(frac_sum(pa), frac_sum(pb));
        lemma_frac_ops_wf(frac_sum(pa), frac_sum(pc));
        lemma_frac_ops_wf(frac_sum(pb), frac_sum(pc));
        lemma_frac_ops_wf(frac_sum(pc), frac_sum(pb));
        lemma_frac_ops_wf(frac_add(frac_sum(pa), frac_sum(pb)), frac_sum(pc));
        lemma_frac_ops_wf(frac_sum(pa), frac_add(frac_sum(pb), frac_sum(pc)));
        lemma_frac_ops_wf(frac_sum(pa), frac_add(frac_sum(pc), frac_sum(pb)));
        lemma_frac_ops_wf(frac_add(frac_sum(pa), frac_sum(pc)), frac_sum(pb));
        lemma_frac_eq_trans(
            frac_sum(s1),
            frac_add(frac_add(frac_sum(pa), frac_sum(pb)), frac_sum(pc)),
            frac_add(frac_sum(pa), frac_add(frac_sum(pb), frac_sum(pc))),
        );
        lemma_frac_eq_trans(
            frac_sum(s1),
            frac_add(frac_sum(pa), frac_add(frac_sum(pb), frac_sum(pc))),
            frac_add(frac_sum(pa), frac_add(frac_sum(pc), frac_sum(pb))),
        );
        // symmetric use of associativity
        lemma_frac_eq_trans(
            frac_add(frac_add(frac_sum(pa), frac_sum(pc)), frac_sum(pb)),
            frac_add(frac_sum(pa), frac_add(frac_sum(pc), frac_sum(pb))),
            frac_sum(s1),
        );
        // fold the middle: add(A, C) ~ sum(rest), and sum(pb) ~ x
        lemma_frac_add_congr(
            frac_add(frac_sum(pa), frac_sum(pc)),
            frac_sum(rest),
            frac_sum(pb),
            x,
        );
        lemma_frac_ops_wf(frac_add(frac_sum(pa), frac_sum(pc)), frac_sum(pb));
        lemma_frac_eq_trans(
            frac_sum(s1),
            frac_add(frac_add(frac_sum(pa), frac_sum(pc)), frac_sum(pb)),
            frac_add(frac_sum(rest), x),
        );
        // and on to sum(s2)
        lemma_frac_add_congr(frac_sum(rest), frac_sum(s2.drop_last()), x, x);
        lemma_frac_ops_wf(frac_sum(rest), x);
        lemma_frac_eq_trans(
            frac_sum(s1),
            frac_add(frac_sum(rest), x),
            frac_add(frac_sum(s2.drop_last()), x),
        );
        assert(frac_sum(s2) == frac_add(frac_sum(s2.drop_last()), s2.last()));
    }
}

} // verus!
