//! The contingency analyzer: row totals, column totals, per-cell expected
//! values under independence, and the chi-squared statistic of a two-way
//! count table. Contingency tables are not binned.
use crate::chi::StatError;
use crate::chi::chi_sum;
use crate::chi::eval_small_cells;
use crate::chi::evaluate;
use crate::group::int_sum;
use crate::rat::Frac;
use crate::rat::Rat;
use crate::rat::frac_eq;
use crate::rat::int_to_fracs;
use crate::rat::rat_views;
use vstd::prelude::*;

verus! {

/// The views of a sequence of 32-bit counts.
pub open spec fn u32_views(s: Seq<u32>) -> Seq<int> {
    s.map_values(|x: u32| x as int)
}

/// A two-way table flattened row-major into one sequence of counts.
pub open spec fn flat_views(cells: Seq<Vec<u32>>) -> Seq<int>
    decreases cells.len(),
{
    if cells.len() == 0 {
        Seq::empty()
    } else {
        flat_views(cells.drop_last()) + u32_views(cells.last()@)
    }
}

/// A grid of rationals flattened row-major into one sequence of fractions.
pub open spec fn flat_rat(rows: Seq<Vec<Rat>>) -> Seq<Frac>
    decreases rows.len(),
{
    if rows.len() == 0 {
        Seq::empty()
    } else {
        flat_rat(rows.drop_last()) + rat_views(rows.last()@)
    }
}

/// The total of column `j`.
pub open spec fn col_sum(cells: Seq<Vec<u32>>, j: int) -> int
    decreases cells.len(),
{
    if cells.len() == 0 {
        0
    } else {
        col_sum(cells.drop_last(), j) + cells.last()@[j]
    }
}

/// The grand total of the table.
pub open spec fn grand_sum(cells: Seq<Vec<u32>>) -> int {
    int_sum(flat_views(cells))
}

/// Splitting a sum of integers at a concatenation.
proof fn lemma_int_sum_concat(a: Seq<int>, b: Seq<int>)
    ensures
        int_sum(a + b) == int_sum(a) + int_sum(b),
    decreases b.len(),
{
    if b.len() == 0 {
        assert(a + b =~= a);
    } else {
        lemma_int_sum_concat(a, b.drop_last());
        assert((a + b).drop_last() =~= a + b.drop_last());
        assert((a + b).last() == b.last());
    }
}

/// A sum of nonnegative integers is nonnegative.
proof fn lemma_int_sum_nonneg(s: Seq<int>)
    requires
        forall|i: int| 0 <= i < s.len() ==> #[trigger] s[i] >= 0,
    ensures
        int_sum(s) >= 0,
    decreases s.len(),
{
    if s.len() > 0 {
        assert(forall|i: int| 0 <= i < s.drop_last().len() ==> s.drop_last()[i] == s[i]);
        lemma_int_sum_nonneg(s.drop_last());
    }
}

/// Each entry of a nonnegative sequence is at most the whole sum.
proof fn lemma_int_sum_part(s: Seq<int>, j: int)
    requires
        forall|i: int| 0 <= i < s.len() ==> #[trigger] s[i] >= 0,
        0 <= j < s.len(),
    ensures
        s[j] <= int_sum(s),
    decreases s.len(),
{
    assert(forall|i: int| 0 <= i < s.drop_last().len() ==> s.drop_last()[i] == s[i]);
    if j == s.len() - 1 {
        lemma_int_sum_nonneg(s.drop_last());
    } else {
        lemma_int_sum_part(s.drop_last(), j);
    }
}

/// With nonnegative cells, the grand total is nonnegative.
proof fn lemma_grand_nonneg(cells: Seq<Vec<u32>>)
    ensures
        grand_sum(cells) >= 0,
    decreases cells.len(),
{
    if cells.len() > 0 {
        lemma_grand_nonneg(cells.drop_last());
        let row = u32_views(cells.last()@);
        assert(forall|i: int| 0 <= i < row.len() ==> #[trigger] row[i] >= 0);
        lemma_int_sum_nonneg(row);
        lemma_int_sum_concat(flat_views(cells.drop_last()), row);
    }
}

/// Every row total is at most the grand total.
proof fn lemma_row_le_grand(cells: Seq<Vec<u32>>, i: int)
    requires
        0 <= i < cells.len(),
    ensures
        int_sum(u32_views(cells[i]@)) <= grand_sum(cells),
    decreases cells.len(),
{
    let row = u32_views(cells.last()@);
    assert(forall|q: int| 0 <= q < row.len() ==> #[trigger] row[q] >= 0);
    lemma_int_sum_concat(flat_views(cells.drop_last()), row);
    if i == cells.len() - 1 {
        lemma_grand_nonneg(cells.drop_last());
    } else {
        lemma_row_le_grand(cells.drop_last(), i);
        lemma_int_sum_nonneg(row);
        assert(cells.drop_last()[i] == cells[i]);
    }
}

/// Every column total is between zero and the grand total.
proof fn lemma_col_le_grand(cells: Seq<Vec<u32>>, j: int)
    requires
        0 <= j,
        forall|i: int| 0 <= i < cells.len() ==> j < (#[trigger] cells[i]).len(),
    ensures
        0 <= col_sum(cells, j) <= grand_sum(cells),
    decreases cells.len(),
{
    if cells.len() > 0 {
        assert forall|i: int| 0 <= i < cells.drop_last().len() implies j < (
        #[trigger] cells.drop_last()[i]).len() by {
            assert(cells.drop_last()[i] == cells[i]);
        }
        lemma_col_le_grand(cells.drop_last(), j);
        let row = u32_views(cells.last()@);
        assert(forall|q: int| 0 <= q < row.len() ==> #[trigger] row[q] >= 0);
        assert(row[j] == cells.last()@[j] as int);
        lemma_int_sum_part(row, j);
        lemma_int_sum_concat(flat_views(cells.drop_last()), row);
    }
}

/// With every count at least 1, each column total is at least 1.
proof fn lemma_col_pos(cells: Seq<Vec<u32>>, j: int)
    requires
        0 <= j,
        cells.len() >= 1,
        forall|i: int| 0 <= i < cells.len() ==> j < (#[trigger] cells[i]).len(),
        forall|i: int, q: int|
            0 <= i < cells.len() && 0 <= q < cells[i].len() ==> #[trigger] cells[i]@[q] >= 1,
    ensures
        col_sum(cells, j) >= 1,
    decreases cells.len(),
{
    if cells.len() == 1 {
        assert(col_sum(cells.drop_last(), j) == 0);
        assert(cells.last()@[j] >= 1);
    } else {
        assert forall|i: int| 0 <= i < cells.drop_last().len() implies j < (
        #[trigger] cells.drop_last()[i]).len() by {
            assert(cells.drop_last()[i] == cells[i]);
        }
        assert forall|i: int, q: int|
            0 <= i < cells.drop_last().len() && 0 <= q < cells.drop_last()[i].len() implies
            #[trigger] cells.drop_last()[i]@[q] >= 1 by {
            assert(cells.drop_last()[i] == cells[i]);
        }
        lemma_col_pos(cells.drop_last(), j);
        assert(cells.last()@[j] >= 1);
    }
}

/// Every flattened entry is between zero and the grand total.
proof fn lemma_flat_entry_bounds(cells: Seq<Vec<u32>>, k: int)
    requires
        0 <= k < flat_views(cells).len(),
    ensures
        0 <= flat_views(cells)[k] <= grand_sum(cells),
{
    let flat = flat_views(cells);
    lemma_flat_nonneg(cells);
    lemma_int_sum_part(flat, k);
}

/// Every flattened entry is nonnegative.
proof fn lemma_flat_nonneg(cells: Seq<Vec<u32>>)
    ensures
        forall|k: int| 0 <= k < flat_views(cells).len() ==> #[trigger] flat_views(cells)[k] >= 0,
    decreases cells.len(),
{
    if cells.len() > 0 {
        lemma_flat_nonneg(cells.drop_last());
        let pre = flat_views(cells.drop_last());
        let row = u32_views(cells.last()@);
        assert forall|k: int| 0 <= k < flat_views(cells).len() implies #[trigger] flat_views(
            cells,
        )[k] >= 0 by {
            if k < pre.len() {
                assert(flat_views(cells)[k] == pre[k]);
            } else {
                assert(flat_views(cells)[k] == row[k - pre.len()]);
            }
        }
    }
}

/// A rectangular table flattens to one entry per cell.
proof fn lemma_flat_len(cells: Seq<Vec<u32>>, cols: int)
    requires
        forall|i: int| 0 <= i < cells.len() ==> (#[trigger] cells[i]).len() == cols,
    ensures
        flat_views(cells).len() == cells.len() * cols,
    decreases cells.len(),
{
    if cells.len() == 0 {
        assert(0int * cols == 0) by (nonlinear_arith);
    } else {
        assert(forall|i: int| 0 <= i < cells.drop_last().len() ==> (#[trigger] cells.drop_last(
        )[i]).len() == cols);
        lemma_flat_len(cells.drop_last(), cols);
        assert((cells.len() - 1) * cols + cols == cells.len() * cols) by (nonlinear_arith);
    }
}

/// A table so small that the statistic is owed: at most four cells, every
/// count at least 1, and a grand total of at most 4 — for instance the
/// two-by-two table of all ones. A conservative worst-case bound on the
/// exact arithmetic, ignoring reduction.
pub open spec fn tiny_table(cells: Seq<Vec<u32>>) -> bool {
    &&& cells.len() * cells[0].len() <= 4
    &&& grand_sum(cells) <= 4
    &&& (forall|i: int, j: int|
        0 <= i < cells.len() && 0 <= j < cells[i].len() ==> #[trigger] cells[i]@[j] >= 1)
}

/// What a contingency run reports.
pub struct ContingencyReport {
    pub row_totals: Vec<u64>,
    pub col_totals: Vec<u64>,
    pub grand_total: u64,
    pub expected: Vec<Vec<Rat>>,
    pub statistic: Rat,
}

/// The exact total of one row, in 64 bits.
fn row_total(row: &Vec<u32>, cols: usize) -> (s: u64)
    requires
        row.len() == cols,
        cols <= 10000,
    ensures
        s as int == int_sum(u32_views(row@)),
        s <= 0xFFFF_FFFF * 10000,
{
    let ghost rv = u32_views(row@);
    let mut acc: u64 = 0;
    let mut j: usize = 0;
    while j < cols
        invariant
            j <= cols,
            cols <= 10000,
            row.len() == cols,
            rv == u32_views(row@),
            acc as int == int_sum(rv.take(j as int)),
            acc <= 0xFFFF_FFFF * (j as u64),
        decreases cols - j,
    {
        proof {
            let pre = rv.take(j as int);
            let post = rv.take(j + 1);
            assert(post.drop_last() =~= pre);
            assert(post.last() == row@[j as int] as int);
        }
        acc = acc + (row[j] as u64);
        j = j + 1;
    }
    proof {
        assert(rv.take(cols as int) =~= rv);
    }
    acc
}

/// Analyzes an `r x c` table of counts: row totals, column totals, grand
/// total, the expected cell values `row_i * col_j / grand` under
/// independence, and the chi-squared statistic accumulated cell by cell.
///
/// Fails with `ZeroTotal` exactly when the table sums to zero; a table too
/// large for exact 64-bit arithmetic fails with `Overflow`, and a zero
/// expected cell (an all-zero row or column) with `NonPositiveExpected`.
pub fn contingency_table(cells: &Vec<Vec<u32>>) -> (r: Result<ContingencyReport, StatError>)
    requires
        1 <= cells.len() <= 10000,
        forall|i: int| 0 <= i < cells.len() ==> (#[trigger] cells[i]).len() == cells[0].len(),
        1 <= cells[0].len() <= 10000,
    ensures
        r is Ok ==> {
            let rep = r.unwrap();
            &&& rep.row_totals.len() == cells.len()
            &&& (forall|i: int|
                0 <= i < cells.len() ==> (#[trigger] rep.row_totals[i]) as int == int_sum(
                    u32_views(cells[i]@),
                ))
            &&& rep.col_totals.len() == cells[0].len()
            &&& (forall|j: int|
                0 <= j < cells[0].len() ==> (#[trigger] rep.col_totals[j]) as int == col_sum(
                    cells@,
                    j,
                ))
            &&& rep.grand_total as int == grand_sum(cells@)
            &&& rep.grand_total > 0
            &&& rep.expected.len() == cells.len()
            &&& (forall|i: int|
                0 <= i < cells.len() ==> (#[trigger] rep.expected[i]).len() == cells[0].len())
            &&& (forall|i: int, j: int|
                0 <= i < cells.len() && 0 <= j < cells[0].len() ==> (#[trigger] rep.expected[i]@[j]).wf()
                    && frac_eq(
                    rep.expected[i]@[j]@,
                    (Frac {
                        num: int_sum(u32_views(cells[i]@)) * col_sum(cells@, j),
                        den: grand_sum(cells@),
                    }),
                ))
            &&& rep.statistic.wf()
            &&& frac_eq(
                rep.statistic@,
                chi_sum(int_to_fracs(flat_views(cells@)), flat_rat(rep.expected@)),
            )
        },
        r == Err::<ContingencyReport, StatError>(StatError::ZeroTotal) <==> grand_sum(cells@) == 0,
        tiny_table(cells@) ==> r is Ok,
        r is Err ==> r == Err::<ContingencyReport, StatError>(StatError::ZeroTotal) || r == Err::<
            ContingencyReport,
            StatError,
        >(StatError::Overflow) || r == Err::<ContingencyReport, StatError>(
            StatError::NonPositiveExpected,
        ),
{
    let ghost tiny = tiny_table(cells@);
    let rows = cells.len();
    let cols = cells[0].len();

    // row totals
    let mut row_totals: Vec<u64> = Vec::new();
    let mut i: usize = 0;
    while i < rows
        invariant
            i <= rows,
            rows == cells.len(),
            cols == cells[0].len(),
            cols <= 10000,
            forall|k: int| 0 <= k < cells.len() ==> (#[trigger] cells[k]).len() == cols,
            row_totals.len() == i,
            forall|k: int|
                0 <= k < i ==> (#[trigger] row_totals[k]) as int == int_sum(u32_views(cells[k]@))
                    && row_totals[k] <= 0xFFFF_FFFF * 10000,
        decreases rows - i,
    {
        let rt = row_total(&cells[i], cols);
        row_totals.push(rt);
        i = i + 1;
    }

    // column totals
    let mut col_totals: Vec<u64> = Vec::new();
    let mut j: usize = 0;
    while j < cols
        invariant
            j <= cols,
            rows == cells.len(),
            1 <= rows <= 10000,
            cols == cells[0].len(),
            cols <= 10000,
            forall|k: int| 0 <= k < cells.len() ==> (#[trigger] cells[k]).len() == cols,
            col_totals.len() == j,
            forall|k: int|
                0 <= k < j ==> (#[trigger] col_totals[k]) as int == col_sum(cells@, k),
        decreases cols - j,
    {
        let mut acc: u64 = 0;
        let mut k: usize = 0;
        while k < rows
            invariant
                k <= rows,
                j < cols,
                rows == cells.len(),
                rows <= 10000,
                cols == cells[0].len(),
                forall|q: int| 0 <= q < cells.len() ==> (#[trigger] cells[q]).len() == cols,
                acc as int == col_sum(cells@.take(k as int), j as int),
                acc <= 0xFFFF_FFFF * (k as u64),
            decreases rows - k,
        {
            proof {
                let pre = cells@.take(k as int);
                let post = cells@.take(k + 1);
                assert(post.drop_last() =~= pre);
                assert(post.last() == cells@[k as int]);
            }
            acc = acc + (cells[k][j] as u64);
            k = k + 1;
        }
        proof {
            assert(cells@.take(rows as int) =~= cells@);
        }
        col_totals.push(acc);
        j = j + 1;
    }

    // grand total
    let mut grand: u64 = 0;
    let mut g: usize = 0;
    while g < rows
        invariant
            g <= rows,
            rows == cells.len(),
            rows <= 10000,
            cols == cells[0].len(),
            cols <= 10000,
            forall|k: int| 0 <= k < cells.len() ==> (#[trigger] cells[k]).len() == cols,
            row_totals.len() == rows,
            forall|k: int|
                0 <= k < rows ==> (#[trigger] row_totals[k]) as int == int_sum(u32_views(cells[k]@))
                    && row_totals[k] <= 0xFFFF_FFFF * 10000,
            grand as int == grand_sum(cells@.take(g as int)),
            grand as int <= 0xFFFF_FFFF * 10000 * (g as int),
        decreases rows - g,
    {
        proof {
            let pre = cells@.take(g as int);
            let post = cells@.take(g + 1);
            assert(post.drop_last() =~= pre);
            assert(post.last() == cells@[g as int]);
            lemma_int_sum_concat(flat_views(pre), u32_views(cells@[g as int]@));
            assert(0xFFFF_FFFF * 10000 * (g as int) + 0xFFFF_FFFF * 10000 == 0xFFFF_FFFF * 10000
                * ((g + 1) as int)) by (nonlinear_arith);
        }
        grand = grand + row_totals[g];
        g = g + 1;
    }
    proof {
        assert(cells@.take(rows as int) =~= cells@);
    }

    proof {
        if tiny {
            // a table of positive counts has a positive grand total
            let row0 = u32_views(cells[0]@);
            assert(forall|q: int| 0 <= q < row0.len() ==> #[trigger] row0[q] >= 0);
            assert(row0[0] == cells[0]@[0] as int);
            assert(cells[0]@[0] >= 1);
            lemma_int_sum_part(row0, 0);
            lemma_row_le_grand(cells@, 0);
            assert(grand >= 1);
        }
    }
    if grand == 0 {
        return Err(StatError::ZeroTotal);
    }
    if grand > 0x7FFF_FFFF {
        proof {
            if tiny {
                assert(false);
            }
        }
        return Err(StatError::Overflow);
    }

    // per-cell expected values and the flattened observed/expected pair
    let mut expected: Vec<Vec<Rat>> = Vec::new();
    let mut obs_flat: Vec<Rat> = Vec::new();
    let mut exp_flat: Vec<Rat> = Vec::new();
    let mut i2: usize = 0;
    while i2 < rows
        invariant
            i2 <= rows,
            rows == cells.len(),
            cols == cells[0].len(),
            forall|k: int| 0 <= k < cells.len() ==> (#[trigger] cells[k]).len() == cols,
            row_totals.len() == rows,
            col_totals.len() == cols,
            forall|k: int|
                0 <= k < rows ==> (#[trigger] row_totals[k]) as int == int_sum(u32_views(cells[k]@)),
            forall|k: int|
                0 <= k < cols ==> (#[trigger] col_totals[k]) as int == col_sum(cells@, k),
            0 < grand <= 0x7FFF_FFFF,
            grand as int == grand_sum(cells@),
            tiny == tiny_table(cells@),
            tiny ==> (forall|k: int|
                0 <= k < obs_flat.len() ==> (#[trigger] obs_flat[k])@.den == 1 && 0
                    <= obs_flat[k]@.num <= 4),
            tiny ==> (forall|k: int|
                0 <= k < exp_flat.len() ==> 1 <= (#[trigger] exp_flat[k])@.den <= 4 && 0
                    < exp_flat[k]@.num <= 16),
            expected.len() == i2,
            forall|k: int| 0 <= k < i2 ==> (#[trigger] expected[k]).len() == cols,
            forall|k: int, q: int|
                0 <= k < i2 && 0 <= q < cols ==> (#[trigger] expected[k]@[q]).wf() && frac_eq(
                    expected[k]@[q]@,
                    (Frac {
                        num: int_sum(u32_views(cells[k]@)) * col_sum(cells@, q),
                        den: grand_sum(cells@),
                    }),
                ),
            rat_views(obs_flat@) =~= int_to_fracs(flat_views(cells@.take(i2 as int))),
            rat_views(exp_flat@) =~= flat_rat(expected@),
            obs_flat.len() == exp_flat.len(),
            forall|k: int| 0 <= k < obs_flat.len() ==> (#[trigger] obs_flat[k]).wf(),
            forall|k: int| 0 <= k < exp_flat.len() ==> (#[trigger] exp_flat[k]).wf(),
        decreases rows - i2,
    {
        let mut row_exp: Vec<Rat> = Vec::new();
        let ghost obs_flat0 = obs_flat@;
        let ghost exp_flat0 = exp_flat@;
        let mut j2: usize = 0;
        while j2 < cols
            invariant
                j2 <= cols,
                i2 < rows,
                rows == cells.len(),
                cols == cells[0].len(),
                forall|k: int| 0 <= k < cells.len() ==> (#[trigger] cells[k]).len() == cols,
                row_totals.len() == rows,
                col_totals.len() == cols,
                forall|k: int|
                    0 <= k < rows ==> (#[trigger] row_totals[k]) as int == int_sum(
                        u32_views(cells[k]@),
                    ),
                forall|k: int|
                    0 <= k < cols ==> (#[trigger] col_totals[k]) as int == col_sum(cells@, k),
                0 < grand <= 0x7FFF_FFFF,
                grand as int == grand_sum(cells@),
                tiny == tiny_table(cells@),
                tiny ==> (forall|k: int|
                    0 <= k < obs_flat.len() ==> (#[trigger] obs_flat[k])@.den == 1 && 0
                        <= obs_flat[k]@.num <= 4),
                tiny ==> (forall|k: int|
                    0 <= k < exp_flat.len() ==> 1 <= (#[trigger] exp_flat[k])@.den <= 4 && 0
                        < exp_flat[k]@.num <= 16),
                row_exp.len() == j2,
                forall|q: int|
                    0 <= q < j2 ==> (#[trigger] row_exp[q]).wf() && frac_eq(
                        row_exp[q]@,
                        (Frac {
                            num: int_sum(u32_views(cells[i2 as int]@)) * col_sum(cells@, q),
                            den: grand_sum(cells@),
                        }),
                    ),
                obs_flat@.len() == obs_flat0.len() + j2,
                exp_flat@.len() == exp_flat0.len() + j2,
                forall|k: int| 0 <= k < obs_flat0.len() ==> #[trigger] obs_flat@[k] == obs_flat0[k],
                forall|k: int| 0 <= k < exp_flat0.len() ==> #[trigger] exp_flat@[k] == exp_flat0[k],
                forall|d: int|
                    0 <= d < j2 ==> #[trigger] obs_flat@[obs_flat0.len() + d]@ == (Frac {
                        num: cells[i2 as int]@[d] as int,
                        den: 1,
                    }),
                forall|d: int|
                    0 <= d < j2 ==> #[trigger] exp_flat@[exp_flat0.len() + d] == row_exp@[d],
                obs_flat.len() == exp_flat.len(),
                forall|k: int| 0 <= k < obs_flat.len() ==> (#[trigger] obs_flat[k]).wf(),
                forall|k: int| 0 <= k < exp_flat.len() ==> (#[trigger] exp_flat[k]).wf(),
            decreases cols - j2,
        {
            let rt = row_totals[i2];
            let ct = col_totals[j2];
            proof {
                if tiny {
                    // in a tiny table every total is pinned between 1 and
                    // the grand total
                    lemma_row_le_grand(cells@, i2 as int);
                    lemma_col_le_grand(cells@, j2 as int);
                    let rw = u32_views(cells[i2 as int]@);
                    assert(forall|q: int| 0 <= q < rw.len() ==> #[trigger] rw[q] >= 0);
                    assert(rw[j2 as int] == cells[i2 as int]@[j2 as int] as int);
                    assert(cells[i2 as int]@[j2 as int] >= 1);
                    lemma_int_sum_part(rw, j2 as int);
                    lemma_col_pos(cells@, j2 as int);
                    assert(1 <= rt <= 4);
                    assert(1 <= ct <= 4);
                }
            }
            if rt > 0x7FFF_FFFF || ct > 0x7FFF_FFFF {
                proof {
                    if tiny {
                        assert(false);
                    }
                }
                return Err(StatError::Overflow);
            }
            proof {
                assert((rt as int) * (ct as int) <= 0x7FFF_FFFF * 0x7FFF_FFFF && (rt as int) * (
                ct as int) >= 0) by (nonlinear_arith)
                    requires
                        0 <= rt as int <= 0x7FFF_FFFF,
                        0 <= ct as int <= 0x7FFF_FFFF,
                ;
                if tiny {
                    assert(1 <= (rt as int) * (ct as int) <= 16) by (nonlinear_arith)
                        requires
                            1 <= rt as int <= 4,
                            1 <= ct as int <= 4,
                    ;
                }
            }
            let num: i64 = (rt as i64) * (ct as i64);
            let e = match Rat::new(num, grand as i64) {
                Some(x) => x,
                None => {
                    proof {
                        // a positive denominator always yields a value
                        assert(false);
                    }
                    return Err(StatError::Overflow);
                },
            };
            proof {
                if tiny {
                    assert(e@.den <= 4);
                    assert(e@.num > 0) by (nonlinear_arith)
                        requires
                            e@.num * (grand as int) == (num as int) * e@.den,
                            num as int >= 1,
                            e@.den >= 1,
                            grand as int >= 1,
                    ;
                    assert(e@.num <= 16);
                    // the observed cell is pinned by its row total
                    let rw = u32_views(cells[i2 as int]@);
                    assert(cells[i2 as int]@[j2 as int] as int <= rt as int);
                }
            }
            let o = Rat::from_int(cells[i2][j2] as i64);
            row_exp.push(e);
            obs_flat.push(o);
            exp_flat.push(e);
            j2 = j2 + 1;
        }
        proof {
            let rw = cells[i2 as int]@;
            assert(rw.take(cols as int) =~= rw);
            // the observed flat extends by exactly this row
            let pre = cells@.take(i2 as int);
            let post = cells@.take(i2 + 1);
            assert(post.drop_last() =~= pre);
            assert(post.last() == cells@[i2 as int]);
            let lhs = rat_views(obs_flat@);
            let rhs = int_to_fracs(flat_views(post));
            assert(flat_views(post) == flat_views(pre) + u32_views(rw));
            assert(rat_views(obs_flat0) =~= int_to_fracs(flat_views(pre)));
            assert(rat_views(obs_flat0).len() == obs_flat0.len());
            assert(int_to_fracs(flat_views(pre)).len() == flat_views(pre).len());
            assert(obs_flat0.len() == flat_views(pre).len());
            assert(u32_views(rw).len() == cols);
            assert(obs_flat@.len() == obs_flat0.len() + cols);
            assert(lhs.len() == rhs.len());
            assert forall|k: int| 0 <= k < lhs.len() implies lhs[k] == rhs[k] by {
                if k < obs_flat0.len() {
                    assert(obs_flat@[k] == obs_flat0[k]);
                    assert(rat_views(obs_flat0)[k] == int_to_fracs(flat_views(pre))[k]);
                } else {
                    let d = k - obs_flat0.len();
                    assert(obs_flat@[obs_flat0.len() + d]@ == (Frac {
                        num: cells[i2 as int]@[d] as int,
                        den: 1,
                    }));
                    assert(obs_flat@[k]@ == (Frac { num: rw[d] as int, den: 1 }));
                    assert((flat_views(pre) + u32_views(rw))[k] == u32_views(rw)[d]);
                    assert(u32_views(rw)[d] == rw[d] as int);
                }
            }
            assert(rat_views(obs_flat@) =~= int_to_fracs(flat_views(post)));
            // the expected flat extends by exactly this row of expecteds
            let exps2 = expected@.push(row_exp);
            assert(exps2.drop_last() =~= expected@);
            assert(exps2.last() == row_exp);
            let lhs2 = rat_views(exp_flat@);
            let rhs2 = flat_rat(exps2);
            assert(rhs2 == flat_rat(expected@) + rat_views(row_exp@));
            assert(rat_views(exp_flat0) =~= flat_rat(expected@));
            assert(rat_views(exp_flat0).len() == exp_flat0.len());
            assert(rat_views(row_exp@).len() == row_exp@.len());
            assert(rat_views(exp_flat@).len() == exp_flat@.len());
            assert(lhs2.len() == rhs2.len());
            assert forall|k: int| 0 <= k < lhs2.len() implies lhs2[k] == rhs2[k] by {
                if k < exp_flat0.len() {
                    assert(exp_flat@[k] == exp_flat0[k]);
                    assert(rat_views(exp_flat0)[k] == flat_rat(expected@)[k]);
                } else {
                    let d = k - exp_flat0.len();
                    assert(exp_flat@[exp_flat0.len() + d] == row_exp@[d]);
                    assert(exp_flat@[k] == row_exp@[d]);
                    assert((flat_rat(expected@) + rat_views(row_exp@))[k] == rat_views(row_exp@)[d]);
                }
            }
            assert(rat_views(exp_flat@) =~= flat_rat(exps2));
        }
        expected.push(row_exp);
        i2 = i2 + 1;
    }
    proof {
        assert(cells@.take(rows as int) =~= cells@);
    }

    proof {
        if tiny {
            assert(rat_views(obs_flat@).len() == obs_flat@.len());
            assert(int_to_fracs(flat_views(cells@)).len() == flat_views(cells@).len());
            lemma_flat_len(cells@, cols as int);
            assert(obs_flat@.len() <= 4);
            assert(eval_small_cells(obs_flat@, exp_flat@));
        }
    }
    let stat = match evaluate(&obs_flat, &exp_flat) {
        Ok(x) => x,
        Err(e) => {
            proof {
                if tiny {
                    assert(false);
                }
            }
            return Err(e);
        },
    };
    proof {
        assert(rat_views(obs_flat@) =~= int_to_fracs(flat_views(cells@)));
    }
    Ok(
        ContingencyReport {
            row_totals,
            col_totals,
            grand_total: grand,
            expected,
            statistic: stat,
        },
    )
}

} // verus!
