//! Bin grouping: the chi-squared approximation needs every expected bin to
//! be at least 5, so too-small bins at the two ends of the category range
//! are merged into the adjacent boundary bin.
//!
//! The boundaries are found by scanning inward from each end past the
//! too-small entries, then absorbing one more index on a side whose merged
//! sum is still too small. When the two boundary regions meet, everything
//! collapses into a single bin.
use crate::chi::StatError;
use crate::rat::Frac;
use crate::rat::Rat;
use crate::rat::frac_add;
use crate::rat::frac_eq;
use crate::rat::frac_sum;
use crate::rat::frac_wf;
use crate::rat::int_abs;
use crate::rat::lemma_frac_add_congr;
use crate::rat::lemma_frac_add_reaches;
use crate::rat::lemma_frac_add_zero;
use crate::rat::lemma_frac_eq_trans;
use crate::rat::lemma_frac_lt_int_congr;
use crate::rat::lemma_frac_ops_wf;
use crate::rat::lemma_frac_sum_concat;
use crate::rat::lemma_frac_sum_nonneg;
use crate::rat::lemma_frac_sum_wf;
use crate::rat::rat_views;
use crate::rat::sum_range;
use vstd::prelude::*;

verus! {

/// An expected bin is too small when it is below 5.
pub open spec fn frac_small(f: Frac) -> bool {
    f.num < 5 * f.den
}

/// How many leading entries are too small.
pub open spec fn count_small_prefix(s: Seq<Frac>) -> int
    decreases s.len(),
{
    if s.len() == 0 {
        0
    } else if !frac_small(s[0]) {
        0
    } else {
        1 + count_small_prefix(s.skip(1))
    }
}

/// How many trailing entries are too small.
pub open spec fn count_small_suffix(s: Seq<Frac>) -> int
    decreases s.len(),
{
    if s.len() == 0 {
        0
    } else if !frac_small(s.last()) {
        0
    } else {
        1 + count_small_suffix(s.drop_last())
    }
}

/// The last original index absorbed into the first merged bin.
pub open spec fn spec_group_start(s: Seq<Frac>) -> int {
    let c = count_small_prefix(s);
    let g0 = if c > s.len() - 1 {
        s.len() - 1
    } else {
        c
    };
    if frac_small(frac_sum(s.take(g0 + 1))) {
        if g0 + 1 > s.len() - 1 {
            s.len() - 1
        } else {
            g0 + 1
        }
    } else {
        g0
    }
}

/// The first original index absorbed into the last merged bin.
pub open spec fn spec_group_end(s: Seq<Frac>) -> int {
    let c = count_small_suffix(s);
    let e0 = if s.len() - 1 - c < 0 {
        0
    } else {
        s.len() - 1 - c
    };
    if frac_small(frac_sum(s.skip(e0 + 1))) && e0 > 0 {
        e0 - 1
    } else {
        e0
    }
}

/// What the grouped vector `rv` of an input `sv` looks like, with the
/// reported boundaries `gs` and `ge`: a merged head bin, the untouched
/// middle, and a merged tail bin — or a single bin holding everything when
/// the two boundary regions meet. In both cases the total is preserved.
pub open spec fn grouped_ok(sv: Seq<Frac>, rv: Seq<Frac>, gs: int, ge: int) -> bool {
    let s = spec_group_start(sv);
    let e = spec_group_end(sv);
    &&& (forall|i: int| 0 <= i < rv.len() ==> frac_wf(#[trigger] rv[i]))
    &&& frac_eq(frac_sum(rv), frac_sum(sv))
    &&& if e >= s {
        &&& gs == s
        &&& ge == e
        &&& rv.len() == e - s + 2
        &&& frac_eq(rv[0], frac_sum(sv.take(s + 1)))
        &&& (forall|j: int| 1 <= j <= e - s ==> rv[j] == sv[#[trigger] (s + j)])
        &&& frac_eq(rv[rv.len() - 1], frac_sum(sv.skip(e + 1)))
    } else {
        &&& rv.len() == 1
        &&& frac_eq(rv[0], frac_sum(sv))
        &&& gs == sv.len() - 1
        &&& ge == sv.len() - 1
    }
}

/// The prefix scan stops at the first entry that is not small.
proof fn lemma_count_small_prefix(s: Seq<Frac>)
    ensures
        0 <= count_small_prefix(s) <= s.len(),
        forall|i: int| 0 <= i < count_small_prefix(s) ==> frac_small(#[trigger] s[i]),
        count_small_prefix(s) < s.len() ==> !frac_small(s[count_small_prefix(s)]),
    decreases s.len(),
{
    if s.len() > 0 && frac_small(s[0]) {
        lemma_count_small_prefix(s.skip(1));
        assert forall|i: int| 0 <= i < count_small_prefix(s) implies frac_small(#[trigger] s[i]) by {
            if i > 0 {
                assert(s.skip(1)[i - 1] == s[i]);
                assert(frac_small(s.skip(1)[i - 1]));
            }
        }
        if count_small_prefix(s) < s.len() {
            assert(s.skip(1)[count_small_prefix(s.skip(1))] == s[count_small_prefix(s)]);
        }
    }
}

/// The suffix scan stops at the last entry that is not small.
proof fn lemma_count_small_suffix(s: Seq<Frac>)
    ensures
        0 <= count_small_suffix(s) <= s.len(),
        forall|i: int|
            s.len() - count_small_suffix(s) <= i < s.len() ==> frac_small(#[trigger] s[i]),
        count_small_suffix(s) < s.len() ==> !frac_small(s[s.len() - 1 - count_small_suffix(s)]),
    decreases s.len(),
{
    if s.len() > 0 && frac_small(s.last()) {
        lemma_count_small_suffix(s.drop_last());
        assert(forall|i: int| 0 <= i < s.drop_last().len() ==> s.drop_last()[i] == s[i]);
    }
}

/// The sum of a sequence splits, as a value, into the sums of its three
/// parts `[0, a)`, `[a, b)`, `[b, len)`.
pub proof fn lemma_sum_three_parts(s: Seq<Frac>, a: int, b: int)
    requires
        0 <= a <= b <= s.len(),
        forall|i: int| 0 <= i < s.len() ==> frac_wf(#[trigger] s[i]),
    ensures
        frac_eq(
            frac_sum(s),
            frac_add(
                frac_add(frac_sum(s.take(a)), frac_sum(s.subrange(a, b))),
                frac_sum(s.skip(b)),
            ),
        ),
{
    let p = s.take(a);
    let q = s.subrange(a, b);
    let t = s.skip(b);
    assert(forall|i: int| 0 <= i < p.len() ==> frac_wf(#[trigger] p[i]));
    assert(forall|i: int| 0 <= i < q.len() ==> frac_wf(#[trigger] q[i]));
    assert(forall|i: int| 0 <= i < t.len() ==> frac_wf(#[trigger] t[i]));
    assert(forall|i: int| 0 <= i < s.take(b).len() ==> frac_wf(#[trigger] s.take(b)[i]));
    assert(s.take(b) =~= p + q);
    assert(s =~= s.take(b) + t);
    lemma_frac_sum_concat(s.take(b), t);
    lemma_frac_sum_concat(p, q);
    lemma_frac_sum_wf(p);
    lemma_frac_sum_wf(q);
    lemma_frac_sum_wf(t);
    lemma_frac_sum_wf(s.take(b));
    lemma_frac_add_congr(
        frac_sum(s.take(b)),
        frac_add(frac_sum(p), frac_sum(q)),
        frac_sum(t),
        frac_sum(t),
    );
    lemma_frac_ops_wf(frac_sum(s.take(b)), frac_sum(t));
    lemma_frac_eq_trans(
        frac_sum(s),
        frac_add(frac_sum(s.take(b)), frac_sum(t)),
        frac_add(frac_add(frac_sum(p), frac_sum(q)), frac_sum(t)),
    );
}

/// A vector made of a merged head bin, the untouched middle of `sv`, and a
/// merged tail bin has the same total as `sv`.
proof fn lemma_grouped_sum_preserved(sv: Seq<Frac>, rv: Seq<Frac>, gs: int, ge: int)
    requires
        0 <= gs <= ge < sv.len(),
        rv.len() == ge - gs + 2,
        forall|i: int| 0 <= i < sv.len() ==> frac_wf(#[trigger] sv[i]),
        forall|i: int| 0 <= i < rv.len() ==> frac_wf(#[trigger] rv[i]),
        frac_eq(rv[0], frac_sum(sv.take(gs + 1))),
        forall|q: int| 1 <= q <= ge - gs ==> #[trigger] rv[q] == sv[gs + q],
        frac_eq(rv[rv.len() - 1], frac_sum(sv.skip(ge + 1))),
    ensures
        frac_eq(frac_sum(rv), frac_sum(sv)),
{
    let l = rv.len() as int;
    lemma_sum_three_parts(rv, 1, l - 1);
    lemma_sum_three_parts(sv, gs + 1, ge + 1);
    let pa = rv.take(1);
    let qa = rv.subrange(1, l - 1);
    let ta = rv.skip(l - 1);
    let pb = sv.take(gs + 1);
    let qb = sv.subrange(gs + 1, ge + 1);
    let tb = sv.skip(ge + 1);
    assert forall|x: int| 0 <= x < qa.len() implies qa[x] == qb[x] by {
        assert(rv[x + 1] == sv[gs + (x + 1)]);
        assert(qa[x] == rv[x + 1]);
        assert(qb[x] == sv[gs + 1 + x]);
    }
    assert(qa =~= qb);
    // the head and tail segments of rv are single merged bins
    assert(pa =~= seq![rv[0]]);
    assert(pa.drop_last() =~= Seq::<Frac>::empty());
    assert(frac_sum(pa) == frac_add(frac_sum(Seq::<Frac>::empty()), rv[0]));
    lemma_frac_add_zero(rv[0]);
    assert(ta =~= seq![rv[l - 1]]);
    assert(ta.drop_last() =~= Seq::<Frac>::empty());
    assert(frac_sum(ta) == frac_add(frac_sum(Seq::<Frac>::empty()), rv[l - 1]));
    lemma_frac_add_zero(rv[l - 1]);
    // sums of the matching segments are equal as values
    lemma_frac_sum_wf(pb);
    lemma_frac_sum_wf(qb);
    lemma_frac_sum_wf(tb);
    lemma_frac_ops_wf(frac_sum(Seq::<Frac>::empty()), rv[0]);
    lemma_frac_ops_wf(frac_sum(Seq::<Frac>::empty()), rv[l - 1]);
    lemma_frac_eq_trans(frac_sum(pa), rv[0], frac_sum(pb));
    lemma_frac_eq_trans(frac_sum(ta), rv[l - 1], frac_sum(tb));
    // assemble: add(add(pa,qa),ta) is value-equal to add(add(pb,qb),tb)
    lemma_frac_sum_wf(pa);
    lemma_frac_sum_wf(qa);
    lemma_frac_sum_wf(ta);
    lemma_frac_add_congr(frac_sum(pa), frac_sum(pb), frac_sum(qa), frac_sum(qb));
    lemma_frac_ops_wf(frac_sum(pa), frac_sum(qa));
    lemma_frac_ops_wf(frac_sum(pb), frac_sum(qb));
    lemma_frac_add_congr(
        frac_add(frac_sum(pa), frac_sum(qa)),
        frac_add(frac_sum(pb), frac_sum(qb)),
        frac_sum(ta),
        frac_sum(tb),
    );
    lemma_frac_ops_wf(frac_add(frac_sum(pa), frac_sum(qa)), frac_sum(ta));
    lemma_frac_sum_wf(rv);
    lemma_frac_sum_wf(sv);
    lemma_frac_eq_trans(
        frac_sum(rv),
        frac_add(frac_add(frac_sum(pa), frac_sum(qa)), frac_sum(ta)),
        frac_add(frac_add(frac_sum(pb), frac_sum(qb)), frac_sum(tb)),
    );
    lemma_frac_ops_wf(frac_add(frac_sum(pb), frac_sum(qb)), frac_sum(tb));
    lemma_frac_eq_trans(
        frac_sum(rv),
        frac_add(frac_add(frac_sum(pb), frac_sum(qb)), frac_sum(tb)),
        frac_sum(sv),
    );
}

/// Merges the too-small head and tail of an expected-frequency vector.
///
/// Returns the grouped vector together with the two absorbed boundary
/// indices; the observed vector is grouped with the same boundaries by
/// `group_observed`. When every bin merges into one, the boundaries are
/// both reported as the last index and the vector has a single bin.
#[verifier::rlimit(60)]
pub fn group_expecteds(expecteds: Vec<Rat>) -> (r: Result<(Vec<Rat>, usize, usize), StatError>)
    requires
        expecteds.len() >= 1,
        forall|i: int| 0 <= i < expecteds.len() ==> (#[trigger] expecteds[i]).wf(),
    ensures
        r is Ok ==> grouped_ok(
            rat_views(expecteds@),
            rat_views(r.unwrap().0@),
            r.unwrap().1 as int,
            r.unwrap().2 as int,
        ),
        r is Ok ==> r.unwrap().1 < expecteds.len() && r.unwrap().2 < expecteds.len(),
        r is Err ==> r == Err::<(Vec<Rat>, usize, usize), StatError>(StatError::Overflow),
        expecteds.len() <= 0x1_0000_0000 && (forall|i: int|
            0 <= i < expecteds.len() ==> (#[trigger] expecteds[i])@.den == 1 && int_abs(
                expecteds[i]@.num,
            ) <= 0x4000_0000) ==> r is Ok,
{
    let n = expecteds.len();
    let ghost small = expecteds.len() <= 0x1_0000_0000 && (forall|i: int|
        0 <= i < expecteds.len() ==> (#[trigger] expecteds[i])@.den == 1 && int_abs(
            expecteds[i]@.num,
        ) <= 0x4000_0000);
    let ghost sv = rat_views(expecteds@);
    proof {
        assert(forall|i: int| 0 <= i < n ==> frac_wf(#[trigger] sv[i]));
    }

    // scan past the too-small head
    let mut cs: usize = 0;
    while cs < n && expecteds[cs].lt_int(5)
        invariant
            cs <= n,
            n == expecteds.len(),
            sv == rat_views(expecteds@),
            forall|i: int| 0 <= i < expecteds.len() ==> (#[trigger] expecteds[i]).wf(),
            forall|i: int| 0 <= i < cs ==> frac_small(#[trigger] sv[i]),
        decreases n - cs,
    {
        cs = cs + 1;
    }
    proof {
        lemma_count_small_prefix(sv);
        let c = count_small_prefix(sv);
        if cs < c {
            assert(frac_small(sv[cs as int]));
            assert(false);
        }
        if c < cs {
            assert(frac_small(sv[c]));
            assert(false);
        }
    }
    let g0 = if cs > n - 1 {
        n - 1
    } else {
        cs
    };
    let head0 = match sum_range(&expecteds, 0, g0 + 1) {
        Some(x) => x,
        None => {
            proof {
                if small {
                    assert(false);
                }
            }
            return Err(StatError::Overflow);
        },
    };
    proof {
        assert(sv.subrange(0, g0 + 1) =~= sv.take(g0 + 1));
        lemma_frac_sum_wf(sv.take(g0 + 1));
        lemma_frac_lt_int_congr(head0@, frac_sum(sv.take(g0 + 1)), 5);
    }
    let gs = if head0.lt_int(5) {
        if g0 + 1 > n - 1 {
            n - 1
        } else {
            g0 + 1
        }
    } else {
        g0
    };
    proof {
        assert(gs as int == spec_group_start(sv));
    }

    // scan past the too-small tail
    let mut j: usize = n - 1;
    while j > 0 && expecteds[j].lt_int(5)
        invariant
            j <= n - 1,
            n == expecteds.len(),
            sv == rat_views(expecteds@),
            forall|i: int| 0 <= i < expecteds.len() ==> (#[trigger] expecteds[i]).wf(),
            forall|i: int| j < i < n ==> frac_small(#[trigger] sv[i]),
        decreases j,
    {
        j = j - 1;
    }
    proof {
        lemma_count_small_suffix(sv);
        let c = count_small_suffix(sv);
        if c == n {
            if j > 0 {
                assert(frac_small(sv[j as int]));
                assert(false);
            }
        } else {
            let k = n - 1 - c;
            if j > k {
                assert(frac_small(sv[j as int]));
                assert(false);
            }
            if j < k {
                assert(frac_small(sv[k]));
                assert(false);
            }
        }
    }
    let tail0 = match sum_range(&expecteds, j + 1, n) {
        Some(x) => x,
        None => {
            proof {
                if small {
                    assert(false);
                }
            }
            return Err(StatError::Overflow);
        },
    };
    proof {
        assert(sv.subrange(j + 1, n as int) =~= sv.skip(j + 1));
        lemma_frac_sum_wf(sv.skip(j + 1));
        lemma_frac_lt_int_congr(tail0@, frac_sum(sv.skip(j + 1)), 5);
    }
    let ge = if tail0.lt_int(5) && j > 0 {
        j - 1
    } else {
        j
    };
    proof {
        assert(ge as int == spec_group_end(sv));
    }

    if ge < gs {
        // the boundary regions meet: everything becomes a single bin
        let total = match sum_range(&expecteds, 0, n) {
            Some(x) => x,
            None => {
                proof {
                    if small {
                        assert(false);
                    }
                }
                return Err(StatError::Overflow);
            },
        };
        let mut v: Vec<Rat> = Vec::new();
        v.push(total);
        proof {
            assert(sv.subrange(0, n as int) =~= sv);
            let rv = rat_views(v@);
            assert(rv.len() == 1);
            assert(rv[0] == total@);
            assert(rv.drop_last() =~= Seq::<Frac>::empty());
            assert(frac_sum(rv) == frac_add(frac_sum(Seq::<Frac>::empty()), total@));
            lemma_frac_add_zero(total@);
            lemma_frac_sum_wf(sv);
            lemma_frac_eq_trans(
                frac_sum(rv),
                total@,
                frac_sum(sv),
            );
        }
        return Ok((v, n - 1, n - 1));
    }

    // the three segments: merged head, untouched middle, merged tail
    let head = match sum_range(&expecteds, 0, gs + 1) {
        Some(x) => x,
        None => {
            proof {
                if small {
                    assert(false);
                }
            }
            return Err(StatError::Overflow);
        },
    };
    let tail = match sum_range(&expecteds, ge + 1, n) {
        Some(x) => x,
        None => {
            proof {
                if small {
                    assert(false);
                }
            }
            return Err(StatError::Overflow);
        },
    };
    let mut v: Vec<Rat> = Vec::new();
    v.push(head);
    let mut m = gs + 1;
    while m <= ge
        invariant
            gs + 1 <= m <= ge + 1,
            ge < n,
            n == expecteds.len(),
            sv == rat_views(expecteds@),
            forall|i: int| 0 <= i < expecteds.len() ==> (#[trigger] expecteds[i]).wf(),
            v@.len() == m - gs,
            v@[0] == head,
            forall|q: int| 1 <= q < v@.len() ==> v@[q] == expecteds[#[trigger] (gs + q)],
        decreases ge + 1 - m,
    {
        v.push(expecteds[m]);
        m = m + 1;
    }
    v.push(tail);
    proof {
        let rv = rat_views(v@);
        let l = rv.len() as int;
        assert(l == ge - gs + 2);
        assert(rv[0] == head@);
        assert(rv[l - 1] == tail@);
        assert forall|q: int| 1 <= q <= ge - gs implies #[trigger] rv[q] == sv[gs + q] by {
            assert(rv[q] == v@[q]@);
            assert(v@[q] == expecteds[gs + q]);
            assert(sv[gs + q] == expecteds[gs + q]@);
        }
        assert(sv.subrange(0, gs + 1) =~= sv.take(gs + 1));
        assert(sv.subrange(ge + 1, n as int) =~= sv.skip(ge + 1));
        assert forall|i: int| 0 <= i < rv.len() implies frac_wf(#[trigger] rv[i]) by {
            assert(rv[i] == v@[i]@);
            if i == 0 {
                assert(rv[i] == head@);
            } else if i == l - 1 {
                assert(rv[i] == tail@);
            } else {
                assert(v@[i] == expecteds[gs + i]);
            }
        }
        lemma_grouped_sum_preserved(sv, rv, gs as int, ge as int);
    }
    Ok((v, gs, ge))
}

/// The merged boundary bins are at least 5.
///
/// Together with `grouped_ok` — whose middle bins are untouched original
/// entries — this says every bin of a grouped vector is at least 5, as long
/// as the entries strictly between the boundaries already were. It asks
/// that the entries be nonnegative (expected frequencies are), that some
/// entry reach 5 at all (otherwise everything collapses into one bin, which
/// may stay small), and that the downward scan not be pinned at index 0
/// with a still-small tail, the one boundary case where the algorithm
/// leaves a small tail bin in place rather than reading before index 0.
pub proof fn lemma_grouped_bins_not_small(s: Seq<Frac>)
    requires
        s.len() >= 1,
        forall|i: int| 0 <= i < s.len() ==> frac_wf(#[trigger] s[i]) && s[i].num >= 0,
        exists|i: int| 0 <= i < s.len() && !frac_small(#[trigger] s[i]),
        !(spec_group_end(s) == 0 && frac_small(frac_sum(s.skip(1)))),
    ensures
        !frac_small(frac_sum(s.take(spec_group_start(s) + 1))),
        !frac_small(frac_sum(s.skip(spec_group_end(s) + 1))),
{
    let n = s.len() as int;
    let big = choose|i: int| 0 <= i < n && !frac_small(s[i]);

    // the upward scan stops at the first entry that reaches 5, and the
    // head bin swallows it, so the head bin reaches 5
    lemma_count_small_prefix(s);
    let cs = count_small_prefix(s);
    assert(cs < n);
    let hp = s.take(cs);
    assert(forall|i: int| 0 <= i < hp.len() ==> frac_wf(#[trigger] hp[i]) && hp[i].num >= 0);
    lemma_frac_sum_nonneg(hp);
    assert(s.take(cs + 1).drop_last() =~= hp);
    assert(s.take(cs + 1).last() == s[cs]);
    lemma_frac_add_reaches(frac_sum(hp), s[cs], 5);
    assert(!frac_small(frac_sum(s.take(cs + 1))));
    assert(spec_group_start(s) == cs);

    // the downward scan stops at the last entry that reaches 5
    lemma_count_small_suffix(s);
    let css = count_small_suffix(s);
    assert(css < n);
    let e0 = n - 1 - css;
    assert(!frac_small(s[e0]));
    let tp = s.skip(e0 + 1);
    assert(forall|i: int| 0 <= i < tp.len() ==> frac_wf(#[trigger] tp[i]) && tp[i].num >= 0);
    lemma_frac_sum_nonneg(tp);
    if !frac_small(frac_sum(tp)) {
        // no extra absorption; the tail bin is the scanned tail itself
        assert(spec_group_end(s) == e0);
    } else {
        // the tail bin additionally swallows the entry at the boundary,
        // which alone reaches 5
        assert(e0 > 0);
        assert(spec_group_end(s) == e0 - 1);
        let one = seq![s[e0]];
        assert(s.skip(e0) =~= one + tp);
        assert(forall|i: int| 0 <= i < one.len() ==> frac_wf(#[trigger] one[i]));
        lemma_frac_sum_concat(one, tp);
        assert(one.drop_last() =~= Seq::<Frac>::empty());
        assert(frac_sum(one) == frac_add(frac_sum(Seq::<Frac>::empty()), s[e0]));
        lemma_frac_add_zero(s[e0]);
        lemma_frac_sum_wf(tp);
        lemma_frac_sum_wf(one);
        lemma_frac_add_congr(frac_sum(one), s[e0], frac_sum(tp), frac_sum(tp));
        lemma_frac_ops_wf(frac_sum(one), frac_sum(tp));
        lemma_frac_sum_wf(s.skip(e0));
        lemma_frac_eq_trans(
            frac_sum(s.skip(e0)),
            frac_add(frac_sum(one), frac_sum(tp)),
            frac_add(s[e0], frac_sum(tp)),
        );
        lemma_frac_add_reaches(frac_sum(tp), s[e0], 5);
        lemma_frac_ops_wf(s[e0], frac_sum(tp));
        lemma_frac_lt_int_congr(frac_sum(s.skip(e0)), frac_add(s[e0], frac_sum(tp)), 5);
        assert(!frac_small(frac_sum(s.skip(e0))));
    }
}

/// The views of a sequence of 32-bit integers.
pub open spec fn int_views(s: Seq<i32>) -> Seq<int> {
    s.map_values(|x: i32| x as int)
}

/// The sum of a sequence of integers.
pub open spec fn int_sum(s: Seq<int>) -> int
    decreases s.len(),
{
    if s.len() == 0 {
        0
    } else {
        int_sum(s.drop_last()) + s.last()
    }
}

/// The exact sum of `v[lo..hi]`, accumulated in 64 bits.
pub fn sum_i32_range(v: &Vec<i32>, lo: usize, hi: usize) -> (s: i64)
    requires
        lo <= hi <= v.len(),
        v.len() <= 0x7FFF_FFFF,
    ensures
        s as int == int_sum(int_views(v@).subrange(lo as int, hi as int)),
        -0x8000_0000 * (hi - lo) <= s as int <= 0x7FFF_FFFF * (hi - lo),
{
    let ghost iv = int_views(v@);
    let mut acc: i64 = 0;
    let mut j: usize = lo;
    while j < hi
        invariant
            lo <= j <= hi <= v.len(),
            v.len() <= 0x7FFF_FFFF,
            iv == int_views(v@),
            acc as int == int_sum(iv.subrange(lo as int, j as int)),
            -0x8000_0000 * (j - lo) <= acc as int <= 0x7FFF_FFFF * (j - lo),
        decreases hi - j,
    {
        proof {
            let pre = iv.subrange(lo as int, j as int);
            let post = iv.subrange(lo as int, j + 1);
            assert(post.drop_last() =~= pre);
            assert(post.last() == iv[j as int]);
            assert(iv[j as int] == v@[j as int] as int);
        }
        acc = acc + (v[j] as i64);
        j = j + 1;
    }
    acc
}

/// Applies grouping boundaries that were computed for the expected vector
/// to the observed vector: the head is summed up to and including
/// `group_start`, the tail from just past `group_end`, and the middle is
/// kept as it is, so observed and expected stay paired bin for bin.
pub fn group_observed(observed: &Vec<i32>, group_start: usize, group_end: usize) -> (r: Vec<i32>)
    requires
        group_start <= group_end < observed.len(),
        observed.len() <= 0x7FFF_FFFF,
        -0x8000_0000 <= int_sum(int_views(observed@).take(group_start + 1)) <= 0x7FFF_FFFF,
        -0x8000_0000 <= int_sum(int_views(observed@).skip(group_end + 1)) <= 0x7FFF_FFFF,
    ensures
        r@.len() == group_end - group_start + 2,
        r@[0] as int == int_sum(int_views(observed@).take(group_start + 1)),
        forall|j: int|
            1 <= j <= group_end - group_start ==> r@[j] == observed@[#[trigger] (group_start + j)],
        r@[r@.len() - 1] as int == int_sum(int_views(observed@).skip(group_end + 1)),
{
    let n = observed.len();
    let ghost iv = int_views(observed@);
    proof {
        assert(iv.subrange(0, group_start + 1) =~= iv.take(group_start + 1));
        assert(iv.subrange(group_end + 1, n as int) =~= iv.skip(group_end + 1));
    }
    let head = sum_i32_range(observed, 0, group_start + 1);
    let tail = sum_i32_range(observed, group_end + 1, n);
    let mut r: Vec<i32> = Vec::new();
    r.push(head as i32);
    let mut m = group_start + 1;
    while m <= group_end
        invariant
            group_start + 1 <= m <= group_end + 1,
            group_end < n,
            n == observed.len(),
            r@.len() == m - group_start,
            r@[0] == head as i32,
            forall|q: int| 1 <= q < r@.len() ==> r@[q] == observed@[#[trigger] (group_start + q)],
        decreases group_end + 1 - m,
    {
        r.push(observed[m]);
        m = m + 1;
    }
    r.push(tail as i32);
    r
}

} // verus!
