//! The distance and alignment algorithms.

use vstd::prelude::*;

use vstd::slice::slice_index_get;
use vstd::slice::slice_subrange;
use vstd::slice::slice_to_vec;

use crate::model::align_cost;
use crate::model::col_cost;
use crate::model::cost_bound;
use crate::model::edit_dist;
use crate::model::gap_free;
use crate::model::lemma_align_cost_bounds;
use crate::model::lemma_col_cost_bounds;
use crate::model::lemma_cost_bound_mono;
use crate::model::lemma_dp_step_fits;
use crate::model::lemma_edit_dist_cell;
use crate::model::lemma_edit_dist_col0;
use crate::model::lemma_edit_dist_in_bound;
use crate::model::lemma_edit_dist_nonneg;
use crate::model::lemma_edit_dist_row0;
use crate::model::lemma_align_cost_concat;
use crate::model::lemma_align_cost_gaps;
use crate::model::lemma_align_cost_gaps_x;
use crate::model::lemma_edit_dist_empty;
use crate::model::lemma_align_cost_prepend;
use crate::model::lemma_edit_dist_single;
use crate::model::lemma_naive_step_fits;
use crate::model::lemma_strip_all_gaps;
use crate::model::lemma_strip_concat;
use crate::model::lemma_strip_gap_free;
use crate::model::lemma_strip_prepend;
use crate::model::lemma_splits_col0;
use crate::model::lemma_splits_identity;
use crate::model::lemma_splits_step_del;
use crate::model::lemma_splits_step_diag;
use crate::model::lemma_splits_step_ins;
use crate::model::min_sub;
use crate::model::splits_at;
use crate::model::strip_gaps;
use crate::model::sub_dominated;
use crate::space::cost_eq;
use crate::space::cost_min;
use crate::space::min_val;
use crate::space::MetricSpace;

verus! {

/// An alignment: two equal-length sequences over the element type, where a
/// gap on one side marks an insertion or a deletion.
#[derive(Debug, PartialEq, Eq)]
pub struct Align<M: MetricSpace>(pub Vec<M::Item>, pub Vec<M::Item>);

/// Calculate the cost of the alignment (x, y) passed as parameter.
pub fn cout_align<M: MetricSpace>(x: &[M::Item], y: &[M::Item]) -> (r: M::Cost)
    requires
        x@.len() == y@.len(),
        M::cost_fits(cost_bound::<M>(x@.len() as int, y@.len() as int)),
    ensures
        M::cost_val(r) == align_cost::<M>(x@, y@),
    decreases x@.len(),
{
    if x.len() == 0 {
        M::zero_cost()
    } else {
        let a = x[0];
        let b = y[0];
        proof {
            lemma_col_cost_bounds::<M>(a, b);
            lemma_cost_bound_mono::<M>(x@.len() - 1, y@.len() - 1, x@.len() as int, y@.len() as int);
            let d = M::spec_del();
            let i = M::spec_ins();
            let s = M::sub_bound();
            let n = x@.len() as int;
            assert((n - 1) * (d + s) + (n - 1) * i + s + (i + d + s) == n * (d + s) + n * i + s)
                by (nonlinear_arith);
            M::lemma_costs_nonneg();
            M::lemma_sub_bounds(a, b);
            assert(i + d <= n * (d + s) + n * i + s) by (nonlinear_arith)
                requires 1 <= n, 0 <= d, 0 <= i, 0 <= s;
            M::lemma_fits_mono(M::spec_ins() + M::spec_del(), cost_bound::<M>(n, n));
        }
        let col: M::Cost = if M::is_gap(a) && M::is_gap(b) {
            M::add(M::ins_cost(), M::del_cost())
        } else if M::is_gap(a) {
            M::ins_cost()
        } else if M::is_gap(b) {
            M::del_cost()
        } else {
            M::sub(a, b)
        };
        proof {
            M::lemma_fits_mono(
                cost_bound::<M>(x@.len() - 1, y@.len() - 1),
                cost_bound::<M>(x@.len() as int, y@.len() as int),
            );
        }
        let rest = cout_align::<M>(
            slice_subrange(x, 1, x.len()),
            slice_subrange(y, 1, y.len()),
        );
        proof {
            assert(x@.subrange(1, x@.len() as int) =~= x@.skip(1));
            assert(y@.subrange(1, y@.len() as int) =~= y@.skip(1));
            lemma_align_cost_bounds::<M>(x@.skip(1), y@.skip(1));
            M::lemma_fits_mono(
                col_cost::<M>(a, b) + align_cost::<M>(x@.skip(1), y@.skip(1)),
                cost_bound::<M>(x@.len() as int, y@.len() as int),
            );
        }
        M::add(col, rest)
    }
}

/// Calculate distance between sequences x and y in the MetricSpace M by
/// brute force: exponential time, used only as a correctness oracle on tiny
/// inputs.
pub fn dist_naif<M: MetricSpace>(x: &[M::Item], y: &[M::Item]) -> (r: M::Cost)
    requires
        gap_free::<M>(x@),
        gap_free::<M>(y@),
        M::cost_fits(cost_bound::<M>(x@.len() as int, y@.len() as int)),
    ensures
        M::cost_val(r) == edit_dist::<M>(x@, y@),
{
    proof {
        lemma_edit_dist_nonneg::<M>(x@, y@);
        lemma_edit_dist_in_bound::<M>(x@, y@);
        M::lemma_fits_mono(
            edit_dist::<M>(x@, y@),
            cost_bound::<M>(x@.len() as int, y@.len() as int),
        );
    }
    dist_naif_rec::<M>(x, y, M::zero_cost(), M::inf_cost())
}

/// Auxiliary function for dist_naif: explores every edit script, carrying the
/// cost `c` accumulated so far and the best total `dist` found so far.
pub fn dist_naif_rec<M: MetricSpace>(
    x: &[M::Item],
    y: &[M::Item],
    c: M::Cost,
    dist: M::Cost,
) -> (r: M::Cost)
    requires
        gap_free::<M>(x@),
        gap_free::<M>(y@),
        0 <= M::cost_val(c),
        M::cost_fits(M::cost_val(c) + cost_bound::<M>(x@.len() as int, y@.len() as int)),
    ensures
        M::cost_val(r) == min_val(
            M::cost_val(dist),
            M::cost_val(c) + edit_dist::<M>(x@, y@),
        ),
    decreases x@.len() + y@.len(),
{
    let n = x.len();
    let m = y.len();
    if n == 0 && m == 0 {
        return cost_min::<M>(dist, c);
    }
    let mut best = dist;
    if n > 0 && m > 0 {
        let a = x[n - 1];
        let b = y[m - 1];
        proof {
            lemma_naive_step_fits::<M>(x@, y@, M::cost_val(c), a, b);
            M::lemma_sub_bounds(a, b);
            assert(x@.subrange(0, n - 1) =~= x@.drop_last());
            assert(y@.subrange(0, m - 1) =~= y@.drop_last());
        }
        best = dist_naif_rec::<M>(
            slice_subrange(x, 0, n - 1),
            slice_subrange(y, 0, m - 1),
            M::add(c, M::sub(a, b)),
            best,
        );
    }
    if n > 0 {
        proof {
            lemma_naive_step_fits::<M>(x@, y@, M::cost_val(c), M::spec_gap(), M::spec_gap());
            M::lemma_costs_nonneg();
            assert(x@.subrange(0, n - 1) =~= x@.drop_last());
        }
        best = dist_naif_rec::<M>(
            slice_subrange(x, 0, n - 1),
            y,
            M::add(c, M::del_cost()),
            best,
        );
    }
    if m > 0 {
        proof {
            lemma_naive_step_fits::<M>(x@, y@, M::cost_val(c), M::spec_gap(), M::spec_gap());
            M::lemma_costs_nonneg();
            assert(y@.subrange(0, m - 1) =~= y@.drop_last());
        }
        best = dist_naif_rec::<M>(
            x,
            slice_subrange(y, 0, m - 1),
            M::add(c, M::ins_cost()),
            best,
        );
    }
    best
}

/// The first row of the cost table: transforming no element of `x` into the
/// first `j` elements of `y` costs `j` insertions.
fn dp_first_row<M: MetricSpace>(x: &[M::Item], y: &[M::Item]) -> (row: Vec<M::Cost>)
    requires
        y@.len() < usize::MAX,
        M::cost_fits(cost_bound::<M>(x@.len() as int, y@.len() as int)),
    ensures
        row@.len() == y@.len() + 1,
        forall|j: int| 0 <= j <= y@.len()
            ==> M::cost_val(row@[j]) == edit_dist::<M>(x@.take(0), y@.take(j)),
{
    let m = y.len();
    let mut row: Vec<M::Cost> = Vec::new();
    row.push(M::zero_cost());
    proof {
        assert(x@.take(0).len() == 0);
        assert(y@.take(0).len() == 0);
    }
    let mut j: usize = 1;
    while j <= m
        invariant
            1 <= j <= m + 1,
            m == y@.len(),
            m < usize::MAX,
            M::cost_fits(cost_bound::<M>(x@.len() as int, y@.len() as int)),
            row@.len() == j,
            forall|jj: int| 0 <= jj < j
                ==> M::cost_val(row@[jj]) == edit_dist::<M>(x@.take(0), y@.take(jj)),
        decreases m + 1 - j,
    {
        proof {
            lemma_dp_step_fits::<M>(x@, y@, 0, j - 1, M::spec_gap(), M::spec_gap());
            lemma_edit_dist_row0::<M>(x@, y@, j as int);
        }
        let c = M::add(row[j - 1], M::ins_cost());
        row.push(c);
        j = j + 1;
    }
    row
}

/// Row `i` of the cost table, computed from row `i - 1`.
fn dp_next_row<M: MetricSpace>(
    x: &[M::Item],
    y: &[M::Item],
    i: usize,
    prev: &Vec<M::Cost>,
) -> (row: Vec<M::Cost>)
    requires
        gap_free::<M>(x@),
        gap_free::<M>(y@),
        y@.len() < usize::MAX,
        M::cost_fits(cost_bound::<M>(x@.len() as int, y@.len() as int)),
        1 <= i <= x@.len(),
        prev@.len() == y@.len() + 1,
        forall|j: int| 0 <= j <= y@.len()
            ==> M::cost_val(prev@[j]) == edit_dist::<M>(x@.take(i - 1), y@.take(j)),
    ensures
        row@.len() == y@.len() + 1,
        forall|j: int| 0 <= j <= y@.len()
            ==> M::cost_val(row@[j]) == edit_dist::<M>(x@.take(i as int), y@.take(j)),
{
    let m = y.len();
    let mut row: Vec<M::Cost> = Vec::new();
    proof {
        lemma_dp_step_fits::<M>(x@, y@, i - 1, 0, M::spec_gap(), M::spec_gap());
        lemma_edit_dist_col0::<M>(x@, y@, i as int);
    }
    let c0 = M::add(prev[0], M::del_cost());
    row.push(c0);
    let mut j: usize = 1;
    while j <= m
        invariant
            1 <= j <= m + 1,
            m == y@.len(),
            m < usize::MAX,
            gap_free::<M>(x@),
            gap_free::<M>(y@),
            M::cost_fits(cost_bound::<M>(x@.len() as int, y@.len() as int)),
            1 <= i <= x@.len(),
            prev@.len() == y@.len() + 1,
            forall|jj: int| 0 <= jj <= y@.len()
                ==> M::cost_val(prev@[jj]) == edit_dist::<M>(x@.take(i - 1), y@.take(jj)),
            row@.len() == j,
            forall|jj: int| 0 <= jj < j
                ==> M::cost_val(row@[jj]) == edit_dist::<M>(x@.take(i as int), y@.take(jj)),
        decreases m + 1 - j,
    {
        let a = x[i - 1];
        let b = y[j - 1];
        proof {
            lemma_dp_step_fits::<M>(x@, y@, i - 1, j - 1, a, b);
            lemma_dp_step_fits::<M>(x@, y@, i as int, j - 1, a, b);
            lemma_dp_step_fits::<M>(x@, y@, i - 1, j as int, a, b);
            lemma_edit_dist_cell::<M>(x@, y@, i as int, j as int);
        }
        let diag = M::add(prev[j - 1], M::sub(a, b));
        let left = M::add(row[j - 1], M::ins_cost());
        let up = M::add(prev[j], M::del_cost());
        let c = cost_min::<M>(diag, cost_min::<M>(left, up));
        row.push(c);
        j = j + 1;
    }
    row
}

/// Compute the full dynamic-programming cost table for the sequences x and y:
/// entry `[i][j]` holds the edit distance between the first `i` elements of
/// `x` and the first `j` elements of `y`.
pub fn dist_dp_full<M: MetricSpace>(x: &[M::Item], y: &[M::Item]) -> (dp: Vec<Vec<M::Cost>>)
    requires
        gap_free::<M>(x@),
        gap_free::<M>(y@),
        x@.len() < usize::MAX,
        y@.len() < usize::MAX,
        M::cost_fits(cost_bound::<M>(x@.len() as int, y@.len() as int)),
    ensures
        dp@.len() == x@.len() + 1,
        forall|i: int| 0 <= i <= x@.len() ==> dp@[i]@.len() == y@.len() + 1,
        forall|i: int, j: int|
            0 <= i <= x@.len() && 0 <= j <= y@.len()
                ==> M::cost_val(dp@[i]@[j]) == edit_dist::<M>(x@.take(i), y@.take(j)),
{
    let n = x.len();
    let mut dp: Vec<Vec<M::Cost>> = Vec::new();
    let mut prev = dp_first_row::<M>(x, y);
    let mut i: usize = 1;
    while i <= n
        invariant
            1 <= i <= n + 1,
            n == x@.len(),
            n < usize::MAX,
            y@.len() < usize::MAX,
            gap_free::<M>(x@),
            gap_free::<M>(y@),
            M::cost_fits(cost_bound::<M>(x@.len() as int, y@.len() as int)),
            dp@.len() == i - 1,
            prev@.len() == y@.len() + 1,
            forall|j: int| 0 <= j <= y@.len()
                ==> M::cost_val(prev@[j]) == edit_dist::<M>(x@.take(i - 1), y@.take(j)),
            forall|ii: int| 0 <= ii < i - 1 ==> dp@[ii]@.len() == y@.len() + 1,
            forall|ii: int, j: int|
                0 <= ii < i - 1 && 0 <= j <= y@.len()
                    ==> M::cost_val(dp@[ii]@[j]) == edit_dist::<M>(x@.take(ii), y@.take(j)),
        decreases n + 1 - i,
    {
        let row = dp_next_row::<M>(x, y, i, &prev);
        dp.push(prev);
        prev = row;
        i = i + 1;
    }
    dp.push(prev);
    dp
}

/// Append a copy of `b` to `a`.
fn append_vec<T: Copy>(a: Vec<T>, b: &Vec<T>) -> (r: Vec<T>)
    ensures
        r@ == a@ + b@,
{
    let mut r = a;
    let ghost a0: Seq<T> = r@;
    let mut i: usize = 0;
    proof {
        assert(r@ =~= a0 + b@.take(0));
    }
    while i < b.len()
        invariant
            i <= b@.len(),
            r@ == a0 + b@.take(i as int),
        decreases b@.len() - i,
    {
        r.push(b[i]);
        proof {
            assert((a0 + b@.take(i as int)).push(b@[i as int]) =~= a0 + b@.take(i + 1));
        }
        i = i + 1;
    }
    proof {
        assert(b@.take(b@.len() as int) =~= b@);
    }
    r
}

/// Reverse a vector of elements.
fn reverse_vec<T: Copy>(v: &Vec<T>) -> (r: Vec<T>)
    ensures
        r@ == v@.reverse(),
{
    let mut r: Vec<T> = Vec::new();
    let mut i: usize = v.len();
    while i > 0
        invariant
            i <= v@.len(),
            r@.len() == v@.len() - i,
            forall|k: int| 0 <= k < r@.len() ==> r@[k] == v@[v@.len() - 1 - k],
        decreases i,
    {
        i = i - 1;
        r.push(v[i]);
    }
    proof {
        assert(r@ =~= v@.reverse());
    }
    r
}

/// Compute the optimal alignment from the full cost table `t` of `x` and `y`,
/// walking from the far corner back to the origin. Ties break towards the
/// diagonal first, then an insertion, then a deletion. Stripping the gaps
/// from either side of the result gives back the corresponding input, and
/// the result's cost is exactly the edit distance.
#[verifier::rlimit(100)]
pub fn sol_1_tab<M: MetricSpace>(x: &[M::Item], y: &[M::Item], t: &[Vec<M::Cost>]) -> (r: Align<M>)
    requires
        gap_free::<M>(x@),
        gap_free::<M>(y@),
        M::cost_fits(cost_bound::<M>(x@.len() as int, y@.len() as int)),
        t@.len() == x@.len() + 1,
        forall|i: int| 0 <= i <= x@.len() ==> t@[i]@.len() == y@.len() + 1,
        forall|i: int, j: int|
            0 <= i <= x@.len() && 0 <= j <= y@.len()
                ==> M::cost_val(t@[i]@[j]) == edit_dist::<M>(x@.take(i), y@.take(j)),
    ensures
        r.0@.len() == r.1@.len(),
        strip_gaps::<M>(r.0@) == x@,
        strip_gaps::<M>(r.1@) == y@,
        align_cost::<M>(r.0@, r.1@) == edit_dist::<M>(x@, y@),
        forall|k: int|
            0 <= k < r.0@.len() ==> !(r.0@[k] == M::spec_gap() && r.1@[k] == M::spec_gap()),
{
    let n = x.len();
    let m = y.len();
    let mut xb: Vec<M::Item> = Vec::new();
    let mut yb: Vec<M::Item> = Vec::new();
    let mut i = n;
    let mut j = m;
    proof {
        assert(xb@.reverse() =~= Seq::<M::Item>::empty());
        assert(yb@.reverse() =~= Seq::<M::Item>::empty());
        assert(strip_gaps::<M>(xb@.reverse()) =~= x@.skip(n as int));
        assert(strip_gaps::<M>(yb@.reverse()) =~= y@.skip(m as int));
        assert(x@.take(n as int) =~= x@);
        assert(y@.take(m as int) =~= y@);
    }
    while i > 0 && j > 0
        invariant
            i <= n,
            j <= m,
            n == x@.len(),
            m == y@.len(),
            gap_free::<M>(x@),
            gap_free::<M>(y@),
            M::cost_fits(cost_bound::<M>(x@.len() as int, y@.len() as int)),
            t@.len() == x@.len() + 1,
            forall|ii: int| 0 <= ii <= x@.len() ==> t@[ii]@.len() == y@.len() + 1,
            forall|ii: int, jj: int|
                0 <= ii <= x@.len() && 0 <= jj <= y@.len()
                    ==> M::cost_val(t@[ii]@[jj]) == edit_dist::<M>(x@.take(ii), y@.take(jj)),
            xb@.len() == yb@.len(),
            strip_gaps::<M>(xb@.reverse()) == x@.skip(i as int),
            strip_gaps::<M>(yb@.reverse()) == y@.skip(j as int),
            edit_dist::<M>(x@.take(i as int), y@.take(j as int))
                + align_cost::<M>(xb@.reverse(), yb@.reverse()) == edit_dist::<M>(x@, y@),
            forall|k: int|
                0 <= k < xb@.len() ==> !(xb@[k] == M::spec_gap() && yb@[k] == M::spec_gap()),
        decreases i + j,
    {
        let a = x[i - 1];
        let b = y[j - 1];
        let ti = slice_index_get(t, i);
        let tp = slice_index_get(t, i - 1);
        proof {
            lemma_dp_step_fits::<M>(x@, y@, i - 1, j - 1, a, b);
            lemma_dp_step_fits::<M>(x@, y@, i as int, j - 1, a, b);
            lemma_edit_dist_cell::<M>(x@, y@, i as int, j as int);
        }
        let ghost xrev = xb@.reverse();
        let ghost yrev = yb@.reverse();
        let diag = M::add(tp[j - 1], M::sub(a, b));
        if cost_eq::<M>(ti[j], diag) {
            xb.push(a);
            yb.push(b);
            proof {
                assert(xb@.reverse() =~= seq![a] + xrev);
                assert(yb@.reverse() =~= seq![b] + yrev);
                lemma_strip_prepend::<M>(xrev, a);
                lemma_strip_prepend::<M>(yrev, b);
                assert(seq![a] + x@.skip(i as int) =~= x@.skip(i - 1));
                assert(seq![b] + y@.skip(j as int) =~= y@.skip(j - 1));
                lemma_align_cost_prepend::<M>(xrev, yrev, a, b);
            }
            i = i - 1;
            j = j - 1;
        } else {
            let left = M::add(ti[j - 1], M::ins_cost());
            if cost_eq::<M>(ti[j], left) {
                let g = M::gap();
                xb.push(g);
                yb.push(b);
                proof {
                    assert(xb@.reverse() =~= seq![g] + xrev);
                    assert(yb@.reverse() =~= seq![b] + yrev);
                    lemma_strip_prepend::<M>(xrev, g);
                    lemma_strip_prepend::<M>(yrev, b);
                    assert(seq![b] + y@.skip(j as int) =~= y@.skip(j - 1));
                    lemma_align_cost_prepend::<M>(xrev, yrev, g, b);
                }
                j = j - 1;
            } else {
                let g = M::gap();
                xb.push(a);
                yb.push(g);
                proof {
                    assert(xb@.reverse() =~= seq![a] + xrev);
                    assert(yb@.reverse() =~= seq![g] + yrev);
                    lemma_strip_prepend::<M>(xrev, a);
                    lemma_strip_prepend::<M>(yrev, g);
                    assert(seq![a] + x@.skip(i as int) =~= x@.skip(i - 1));
                    lemma_align_cost_prepend::<M>(xrev, yrev, a, g);
                }
                i = i - 1;
            }
        }
    }
    while i > 0
        invariant
            i <= n,
            j <= m,
            i > 0 ==> j == 0,
            n == x@.len(),
            m == y@.len(),
            gap_free::<M>(x@),
            gap_free::<M>(y@),
            xb@.len() == yb@.len(),
            strip_gaps::<M>(xb@.reverse()) == x@.skip(i as int),
            strip_gaps::<M>(yb@.reverse()) == y@.skip(j as int),
            edit_dist::<M>(x@.take(i as int), y@.take(j as int))
                + align_cost::<M>(xb@.reverse(), yb@.reverse()) == edit_dist::<M>(x@, y@),
            forall|k: int|
                0 <= k < xb@.len() ==> !(xb@[k] == M::spec_gap() && yb@[k] == M::spec_gap()),
        decreases i,
    {
        let a = x[i - 1];
        let g = M::gap();
        let ghost xrev = xb@.reverse();
        let ghost yrev = yb@.reverse();
        proof {
            lemma_edit_dist_col0::<M>(x@, y@, i as int);
        }
        xb.push(a);
        yb.push(g);
        proof {
            assert(xb@.reverse() =~= seq![a] + xrev);
            assert(yb@.reverse() =~= seq![g] + yrev);
            lemma_strip_prepend::<M>(xrev, a);
            lemma_strip_prepend::<M>(yrev, g);
            assert(seq![a] + x@.skip(i as int) =~= x@.skip(i - 1));
            lemma_align_cost_prepend::<M>(xrev, yrev, a, g);
        }
        i = i - 1;
    }
    while j > 0
        invariant
            i == 0,
            j <= m,
            n == x@.len(),
            m == y@.len(),
            gap_free::<M>(x@),
            gap_free::<M>(y@),
            xb@.len() == yb@.len(),
            strip_gaps::<M>(xb@.reverse()) == x@.skip(i as int),
            strip_gaps::<M>(yb@.reverse()) == y@.skip(j as int),
            edit_dist::<M>(x@.take(i as int), y@.take(j as int))
                + align_cost::<M>(xb@.reverse(), yb@.reverse()) == edit_dist::<M>(x@, y@),
            forall|k: int|
                0 <= k < xb@.len() ==> !(xb@[k] == M::spec_gap() && yb@[k] == M::spec_gap()),
        decreases j,
    {
        let b = y[j - 1];
        let g = M::gap();
        let ghost xrev = xb@.reverse();
        let ghost yrev = yb@.reverse();
        proof {
            lemma_edit_dist_row0::<M>(x@, y@, j as int);
        }
        xb.push(g);
        yb.push(b);
        proof {
            assert(xb@.reverse() =~= seq![g] + xrev);
            assert(yb@.reverse() =~= seq![b] + yrev);
            lemma_strip_prepend::<M>(xrev, g);
            lemma_strip_prepend::<M>(yrev, b);
            assert(seq![b] + y@.skip(j as int) =~= y@.skip(j - 1));
            lemma_align_cost_prepend::<M>(xrev, yrev, g, b);
        }
        j = j - 1;
    }
    proof {
        assert(x@.skip(0) =~= x@);
        assert(y@.skip(0) =~= y@);
        assert(x@.take(0).len() == 0);
        assert(y@.take(0).len() == 0);
    }
    let xr = reverse_vec(&xb);
    let yr = reverse_vec(&yb);
    Align(xr, yr)
}

/// Compute the optimal alignment using the full table.
pub fn sol_1<M: MetricSpace>(x: &[M::Item], y: &[M::Item]) -> (r: Align<M>)
    requires
        gap_free::<M>(x@),
        gap_free::<M>(y@),
        x@.len() < usize::MAX,
        y@.len() < usize::MAX,
        M::cost_fits(cost_bound::<M>(x@.len() as int, y@.len() as int)),
    ensures
        r.0@.len() == r.1@.len(),
        strip_gaps::<M>(r.0@) == x@,
        strip_gaps::<M>(r.1@) == y@,
        align_cost::<M>(r.0@, r.1@) == edit_dist::<M>(x@, y@),
        forall|k: int|
            0 <= k < r.0@.len() ==> !(r.0@[k] == M::spec_gap() && r.1@[k] == M::spec_gap()),
{
    let t = dist_dp_full::<M>(x, y);
    sol_1_tab::<M>(x, y, t.as_slice())
}

/// Calculate the optimal alignment and the distance between the sequences at
/// once.
pub fn prog_dyn<M: MetricSpace>(x: &[M::Item], y: &[M::Item]) -> (r: (M::Cost, Align<M>))
    requires
        gap_free::<M>(x@),
        gap_free::<M>(y@),
        x@.len() < usize::MAX,
        y@.len() < usize::MAX,
        M::cost_fits(cost_bound::<M>(x@.len() as int, y@.len() as int)),
    ensures
        M::cost_val(r.0) == edit_dist::<M>(x@, y@),
        r.1.0@.len() == r.1.1@.len(),
        strip_gaps::<M>(r.1.0@) == x@,
        strip_gaps::<M>(r.1.1@) == y@,
        align_cost::<M>(r.1.0@, r.1.1@) == edit_dist::<M>(x@, y@),
{
    let dp = dist_dp_full::<M>(x, y);
    let last = &dp[x.len()];
    proof {
        assert(x@.take(x@.len() as int) =~= x@);
        assert(y@.take(y@.len() as int) =~= y@);
    }
    let d = last[y.len()];
    let al = sol_1_tab::<M>(x, y, dp.as_slice());
    (d, al)
}

/// Compute the distance between two sequences with the full table.
pub fn dist_1<M: MetricSpace>(x: &[M::Item], y: &[M::Item]) -> (r: M::Cost)
    requires
        gap_free::<M>(x@),
        gap_free::<M>(y@),
        x@.len() < usize::MAX,
        y@.len() < usize::MAX,
        M::cost_fits(cost_bound::<M>(x@.len() as int, y@.len() as int)),
    ensures
        M::cost_val(r) == edit_dist::<M>(x@, y@),
{
    let dp = dist_dp_full::<M>(x, y);
    let last = &dp[x.len()];
    proof {
        assert(x@.take(x@.len() as int) =~= x@);
        assert(y@.take(y@.len() as int) =~= y@);
    }
    last[y.len()]
}

/// Calculate the distance between two sequences keeping only two rows of the
/// table: quadratic time, linear memory.
pub fn dist_2<M: MetricSpace>(x: &[M::Item], y: &[M::Item]) -> (r: M::Cost)
    requires
        gap_free::<M>(x@),
        gap_free::<M>(y@),
        x@.len() < usize::MAX,
        y@.len() < usize::MAX,
        M::cost_fits(cost_bound::<M>(x@.len() as int, y@.len() as int)),
    ensures
        M::cost_val(r) == edit_dist::<M>(x@, y@),
{
    let n = x.len();
    let mut prev = dp_first_row::<M>(x, y);
    let mut i: usize = 1;
    while i <= n
        invariant
            1 <= i <= n + 1,
            n == x@.len(),
            n < usize::MAX,
            y@.len() < usize::MAX,
            gap_free::<M>(x@),
            gap_free::<M>(y@),
            M::cost_fits(cost_bound::<M>(x@.len() as int, y@.len() as int)),
            prev@.len() == y@.len() + 1,
            forall|j: int| 0 <= j <= y@.len()
                ==> M::cost_val(prev@[j]) == edit_dist::<M>(x@.take(i - 1), y@.take(j)),
        decreases n + 1 - i,
    {
        let row = dp_next_row::<M>(x, y, i, &prev);
        prev = row;
        i = i + 1;
    }
    proof {
        assert(x@.take(x@.len() as int) =~= x@);
        assert(y@.take(y@.len() as int) =~= y@);
    }
    prev[y.len()]
}

/// A word of `n` gaps.
pub fn mot_gaps<M: MetricSpace>(n: usize) -> (r: Vec<M::Item>)
    ensures
        r@.len() == n,
        forall|k: int| 0 <= k < n ==> r@[k] == M::spec_gap(),
{
    let mut ret: Vec<M::Item> = Vec::new();
    let mut i: usize = 0;
    while i < n
        invariant
            i <= n,
            ret@.len() == i,
            forall|k: int| 0 <= k < i ==> ret@[k] == M::spec_gap(),
        decreases n + 1 - i,
    {
        ret.push(M::gap());
        i = i + 1;
    }
    ret
}

/// Remove all gaps from the sequence.
pub fn rm_gaps<M: MetricSpace>(a: Vec<M::Item>) -> (r: Vec<M::Item>)
    ensures
        r@ == strip_gaps::<M>(a@),
{
    let mut r: Vec<M::Item> = Vec::new();
    let mut i: usize = 0;
    proof {
        assert(a@.skip(0) =~= a@);
        assert(r@ + strip_gaps::<M>(a@) =~= strip_gaps::<M>(a@));
    }
    while i < a.len()
        invariant
            i <= a@.len(),
            r@ + strip_gaps::<M>(a@.skip(i as int)) == strip_gaps::<M>(a@),
        decreases a@.len() - i,
    {
        let e = a[i];
        proof {
            assert(a@.skip(i as int)[0] == a@[i as int]);
            assert(a@.skip(i as int).skip(1) =~= a@.skip(i + 1));
        }
        if !M::is_gap(e) {
            r.push(e);
            proof {
                assert(r@ + strip_gaps::<M>(a@.skip(i + 1)) =~= strip_gaps::<M>(a@));
            }
        }
        i = i + 1;
    }
    proof {
        assert(a@.skip(a@.len() as int) =~= Seq::empty());
        assert(r@ =~= strip_gaps::<M>(a@));
    }
    r
}

/// Calculate the optimal cutting point in sequence y for the corresponding
/// cutting point |x|/2 in sequence x: a forward sweep over the cost rows
/// carries, for every column, the column at which the best path crossed row
/// |x|/2, breaking ties towards the diagonal, then the deletion, then the
/// insertion. The two halves cut there solve to exactly the whole distance.
#[verifier::rlimit(100)]
pub fn coupure<M: MetricSpace>(x: &[M::Item], y: &[M::Item]) -> (jc: usize)
    requires
        gap_free::<M>(x@),
        gap_free::<M>(y@),
        x@.len() < usize::MAX,
        y@.len() < usize::MAX,
        M::cost_fits(cost_bound::<M>(x@.len() as int, y@.len() as int)),
    ensures
        jc <= y@.len(),
        edit_dist::<M>(x@.take(x@.len() as int / 2), y@.take(jc as int))
            + edit_dist::<M>(x@.skip(x@.len() as int / 2), y@.skip(jc as int))
            == edit_dist::<M>(x@, y@),
{
    let n = x.len();
    let m = y.len();
    let i_star = n / 2;
    let ghost ic = i_star as int;

    let mut tprev = dp_first_row::<M>(x, y);
    let mut qprev: Vec<usize> = Vec::new();
    let mut j0: usize = 0;
    while j0 <= m
        invariant
            j0 <= m + 1,
            m < usize::MAX,
            qprev@.len() == j0,
            forall|jj: int| 0 <= jj < j0 ==> qprev@[jj] == jj,
        decreases m + 1 - j0,
    {
        qprev.push(j0);
        j0 = j0 + 1;
    }
    proof {
        if ic == 0 {
            assert forall|jj: int| 0 <= jj <= m implies
                splits_at::<M>(x@, y@, ic, 0, jj, qprev@[jj] as int) by {
                lemma_splits_identity::<M>(x@, y@, ic, jj);
            }
        }
    }

    let mut i: usize = 1;
    while i <= n
        invariant
            1 <= i <= n + 1,
            n == x@.len(),
            m == y@.len(),
            n < usize::MAX,
            m < usize::MAX,
            i_star == n / 2,
            ic == i_star as int,
            gap_free::<M>(x@),
            gap_free::<M>(y@),
            M::cost_fits(cost_bound::<M>(x@.len() as int, y@.len() as int)),
            tprev@.len() == m + 1,
            forall|jj: int| 0 <= jj <= m
                ==> M::cost_val(tprev@[jj]) == edit_dist::<M>(x@.take(i - 1), y@.take(jj)),
            qprev@.len() == m + 1,
            forall|jj: int| 0 <= jj <= m ==> qprev@[jj] <= jj,
            i - 1 <= ic ==> forall|jj: int| 0 <= jj <= m ==> qprev@[jj] == jj,
            i - 1 >= ic ==> forall|jj: int| 0 <= jj <= m
                ==> splits_at::<M>(x@, y@, ic, i - 1, jj, qprev@[jj] as int),
        decreases n + 1 - i,
    {
        let row = dp_next_row::<M>(x, y, i, &tprev);
        let mut qrow: Vec<usize> = Vec::new();
        if i <= i_star {
            let mut jq: usize = 0;
            while jq <= m
                invariant
                    jq <= m + 1,
                    m < usize::MAX,
                    qrow@.len() == jq,
                    forall|jj: int| 0 <= jj < jq ==> qrow@[jj] == jj,
                decreases m + 1 - jq,
            {
                qrow.push(jq);
                jq = jq + 1;
            }
            proof {
                if i as int == ic {
                    assert forall|jj: int| 0 <= jj <= m implies
                        splits_at::<M>(x@, y@, ic, i as int, jj, qrow@[jj] as int) by {
                        lemma_splits_identity::<M>(x@, y@, ic, jj);
                    }
                }
            }
        } else {
            qrow.push(0);
            proof {
                lemma_splits_col0::<M>(x@, y@, ic, i as int);
            }
            let mut j: usize = 1;
            while j <= m
                invariant
                    1 <= j <= m + 1,
                    1 <= i <= n,
                    i > i_star,
                    n == x@.len(),
                    m == y@.len(),
                    n < usize::MAX,
                    m < usize::MAX,
                    i_star == n / 2,
                    ic == i_star as int,
                    gap_free::<M>(x@),
                    gap_free::<M>(y@),
                    M::cost_fits(cost_bound::<M>(x@.len() as int, y@.len() as int)),
                    tprev@.len() == m + 1,
                    forall|jj: int| 0 <= jj <= m
                        ==> M::cost_val(tprev@[jj]) == edit_dist::<M>(x@.take(i - 1), y@.take(jj)),
                    row@.len() == m + 1,
                    forall|jj: int| 0 <= jj <= m
                        ==> M::cost_val(row@[jj]) == edit_dist::<M>(x@.take(i as int), y@.take(jj)),
                    qprev@.len() == m + 1,
                    forall|jj: int| 0 <= jj <= m ==> qprev@[jj] <= jj,
                    forall|jj: int| 0 <= jj <= m
                        ==> splits_at::<M>(x@, y@, ic, i - 1, jj, qprev@[jj] as int),
                    qrow@.len() == j,
                    forall|jj: int| 0 <= jj < j ==> qrow@[jj] <= jj,
                    forall|jj: int| 0 <= jj < j
                        ==> splits_at::<M>(x@, y@, ic, i as int, jj, qrow@[jj] as int),
                decreases m + 1 - j,
            {
                let a = x[i - 1];
                let b = y[j - 1];
                proof {
                    lemma_dp_step_fits::<M>(x@, y@, i - 1, j - 1, a, b);
                    lemma_dp_step_fits::<M>(x@, y@, i as int, j - 1, a, b);
                    lemma_dp_step_fits::<M>(x@, y@, i - 1, j as int, a, b);
                    lemma_edit_dist_cell::<M>(x@, y@, i as int, j as int);
                }
                let op1 = M::add(tprev[j - 1], M::sub(a, b));
                let op2 = M::add(tprev[j], M::del_cost());
                let op3 = M::add(row[j - 1], M::ins_cost());
                let tij = row[j];
                let q: usize;
                if cost_eq::<M>(tij, op1) {
                    q = qprev[j - 1];
                    proof {
                        lemma_splits_step_diag::<M>(x@, y@, ic, i as int, j as int, q as int);
                    }
                } else if cost_eq::<M>(tij, op2) {
                    q = qprev[j];
                    proof {
                        lemma_splits_step_del::<M>(x@, y@, ic, i as int, j as int, q as int);
                    }
                } else {
                    q = qrow[j - 1];
                    proof {
                        lemma_splits_step_ins::<M>(x@, y@, ic, i as int, j as int, q as int);
                    }
                }
                qrow.push(q);
                j = j + 1;
            }
        }
        tprev = row;
        qprev = qrow;
        i = i + 1;
    }
    proof {
        assert(x@.take(n as int) =~= x@);
        assert(y@.take(m as int) =~= y@);
        assert(x@.take(n as int).skip(ic) =~= x@.skip(ic));
        let qf = qprev@[m as int] as int;
        assert(y@.take(m as int).skip(qf) =~= y@.skip(qf));
    }
    qprev[m]
}

/// Align a letter with a word in the optimal way, scanning for the position
/// where substitution is cheapest and padding every other column of the
/// letter's side with gaps. Linear time; the result is an optimal alignment
/// whenever no substitution costs more than a deletion plus an insertion.
pub fn align_lettre_mot<M: MetricSpace>(
    x: M::Item,
    y: &[M::Item],
) -> (r: (Vec<M::Item>, Vec<M::Item>))
    requires
        y@.len() >= 1,
        x != M::spec_gap(),
        gap_free::<M>(y@),
    ensures
        r.0@.len() == y@.len(),
        r.1@ == y@,
        strip_gaps::<M>(r.0@) == seq![x],
        strip_gaps::<M>(r.1@) == y@,
        align_cost::<M>(r.0@, r.1@) == min_sub::<M>(x, y@) + (y@.len() - 1) * M::spec_ins(),
        sub_dominated::<M>() ==> align_cost::<M>(r.0@, r.1@) == edit_dist::<M>(seq![x], y@),
        forall|k: int|
            0 <= k < r.0@.len() ==> !(r.0@[k] == M::spec_gap() && r.1@[k] == M::spec_gap()),
{
    let m = y.len();
    let mut best = M::sub(x, y[0]);
    let mut bi: usize = 0;
    let mut k: usize = 1;
    proof {
        assert(y@.take(1).len() == 1);
        assert(y@.take(1)[0] == y@[0]);
    }
    while k < m
        invariant
            1 <= k <= m,
            m == y@.len(),
            x != M::spec_gap(),
            gap_free::<M>(y@),
            bi < k,
            M::cost_val(best) == min_sub::<M>(x, y@.take(k as int)),
            M::cost_val(best) == M::spec_sub(x, y@[bi as int]),
        decreases m - k,
    {
        proof {
            assert(y@.take(k + 1).drop_last() =~= y@.take(k as int));
            assert(y@.take(k + 1).last() == y@[k as int]);
            assert(y@.take(k + 1).len() == k + 1);
        }
        let c = M::sub(x, y[k]);
        if !M::le(best, c) {
            best = c;
            bi = k;
        }
        k = k + 1;
    }
    proof {
        assert(y@.take(m as int) =~= y@);
    }
    let mut xb = mot_gaps::<M>(bi);
    let ghost gaps1 = xb@;
    xb.push(x);
    let tail = mot_gaps::<M>(m - 1 - bi);
    let xb = append_vec(xb, &tail);
    let yv = slice_to_vec(y);
    proof {
        assert(xb@ =~= gaps1 + (seq![x] + tail@));
        lemma_strip_all_gaps::<M>(gaps1);
        lemma_strip_all_gaps::<M>(tail@);
        lemma_strip_concat::<M>(gaps1, seq![x] + tail@);
        lemma_strip_prepend::<M>(tail@, x);
        assert(Seq::<M::Item>::empty() + (seq![x] + Seq::<M::Item>::empty()) =~= seq![x]);
        assert(strip_gaps::<M>(xb@) == seq![x]);
        lemma_strip_gap_free::<M>(y@);

        let b = bi as int;
        assert(y@ =~= y@.take(b) + (seq![y@[b]] + y@.skip(b + 1)));
        assert(gap_free::<M>(y@.take(b)));
        assert(forall|kk: int| 0 <= kk < y@.skip(b + 1).len()
            ==> #[trigger] y@.skip(b + 1)[kk] == y@[kk + b + 1]);
        assert(gap_free::<M>(y@.skip(b + 1)));
        lemma_align_cost_concat::<M>(gaps1, y@.take(b), seq![x] + tail@, seq![y@[b]] + y@.skip(b + 1));
        lemma_align_cost_gaps::<M>(gaps1, y@.take(b));
        lemma_align_cost_prepend::<M>(tail@, y@.skip(b + 1), x, y@[b]);
        lemma_align_cost_gaps::<M>(tail@, y@.skip(b + 1));
        assert(col_cost::<M>(x, y@[b]) == M::spec_sub(x, y@[b]));
        let ic = M::spec_ins();
        assert(b * ic + (m - 1 - b) * ic == (m - 1) * ic) by (nonlinear_arith);
        assert(align_cost::<M>(xb@, y@) == min_sub::<M>(x, y@) + (y@.len() - 1) * ic);
        if sub_dominated::<M>() {
            lemma_edit_dist_single::<M>(x, y@);
        }
        assert(forall|kk: int| 0 <= kk < xb@.len() && kk != b ==> xb@[kk] == M::spec_gap());
        assert(xb@[b] == x);
    }
    (xb, yv)
}

/// Auxiliary function for sol_2: divide-and-conquer alignment in linear
/// working memory. The first sequence is cut at its midpoint row, the second
/// at the column coupure reports, the halves are solved independently and
/// their alignments concatenated. The result is an optimal alignment whenever
/// no substitution costs more than a deletion plus an insertion.
pub fn sol_2_ll<M: MetricSpace>(x: &[M::Item], y: &[M::Item]) -> (r: (Vec<M::Item>, Vec<M::Item>))
    requires
        gap_free::<M>(x@),
        gap_free::<M>(y@),
        x@.len() < usize::MAX,
        y@.len() < usize::MAX,
        M::cost_fits(cost_bound::<M>(x@.len() as int, y@.len() as int)),
    ensures
        r.0@.len() == r.1@.len(),
        strip_gaps::<M>(r.0@) == x@,
        strip_gaps::<M>(r.1@) == y@,
        sub_dominated::<M>() ==> align_cost::<M>(r.0@, r.1@) == edit_dist::<M>(x@, y@),
        forall|k: int|
            0 <= k < r.0@.len() ==> !(r.0@[k] == M::spec_gap() && r.1@[k] == M::spec_gap()),
    decreases x@.len(),
{
    let n = x.len();
    let m = y.len();
    if n == 0 {
        let g = mot_gaps::<M>(m);
        let yv = slice_to_vec(y);
        proof {
            assert(x@ =~= Seq::<M::Item>::empty());
            lemma_strip_all_gaps::<M>(g@);
            lemma_strip_gap_free::<M>(y@);
            lemma_align_cost_gaps::<M>(g@, y@);
            lemma_edit_dist_empty::<M>(y@);
        }
        (g, yv)
    } else if m == 0 {
        let xv = slice_to_vec(x);
        let g = mot_gaps::<M>(n);
        proof {
            assert(y@ =~= Seq::<M::Item>::empty());
            lemma_strip_all_gaps::<M>(g@);
            lemma_strip_gap_free::<M>(x@);
            lemma_align_cost_gaps_x::<M>(x@, g@);
            lemma_edit_dist_empty::<M>(x@);
        }
        (xv, g)
    } else if n == 1 {
        let r = align_lettre_mot::<M>(x[0], y);
        proof {
            assert(seq![x@[0]] =~= x@);
        }
        r
    } else {
        let i = n / 2;
        let j = coupure::<M>(x, y);
        let x1 = slice_subrange(x, 0, i);
        let y1 = slice_subrange(y, 0, j);
        let x2 = slice_subrange(x, i, n);
        let y2 = slice_subrange(y, j, m);
        proof {
            assert(x1@ =~= x@.take(i as int));
            assert(y1@ =~= y@.take(j as int));
            assert(x2@ =~= x@.skip(i as int));
            assert(y2@ =~= y@.skip(j as int));
            assert(gap_free::<M>(x1@));
            assert(gap_free::<M>(y1@));
            assert(forall|k: int| 0 <= k < x2@.len() ==> #[trigger] x2@[k] == x@[k + i]);
            assert(forall|k: int| 0 <= k < y2@.len() ==> #[trigger] y2@[k] == y@[k + j]);
            assert(gap_free::<M>(x2@));
            assert(gap_free::<M>(y2@));
            lemma_cost_bound_mono::<M>(x1@.len() as int, y1@.len() as int, n as int, m as int);
            lemma_cost_bound_mono::<M>(x2@.len() as int, y2@.len() as int, n as int, m as int);
            M::lemma_fits_mono(
                cost_bound::<M>(x1@.len() as int, y1@.len() as int),
                cost_bound::<M>(n as int, m as int),
            );
            M::lemma_fits_mono(
                cost_bound::<M>(x2@.len() as int, y2@.len() as int),
                cost_bound::<M>(n as int, m as int),
            );
        }
        let (a1, b1) = sol_2_ll::<M>(x1, y1);
        let (a2, b2) = sol_2_ll::<M>(x2, y2);
        let ghost a1v = a1@;
        let ghost b1v = b1@;
        let ghost a2v = a2@;
        let ghost b2v = b2@;
        let a = append_vec(a1, &a2);
        let b = append_vec(b1, &b2);
        proof {
            lemma_strip_concat::<M>(a1v, a2v);
            lemma_strip_concat::<M>(b1v, b2v);
            lemma_align_cost_concat::<M>(a1v, b1v, a2v, b2v);
            assert(x@.take(i as int) + x@.skip(i as int) =~= x@);
            assert(y@.take(j as int) + y@.skip(j as int) =~= y@);
            assert forall|k: int| 0 <= k < a@.len() implies
                !(a@[k] == M::spec_gap() && b@[k] == M::spec_gap()) by {
                if k < a1v.len() {
                    assert(a@[k] == a1v[k]);
                    assert(b@[k] == b1v[k]);
                } else {
                    assert(a@[k] == a2v[k - a1v.len()]);
                    assert(b@[k] == b2v[k - b1v.len()]);
                }
            }
        }
        (a, b)
    }
}

/// Compute the alignment of two sequences by divide and conquer, in linear
/// working memory. The result is an optimal alignment whenever no
/// substitution costs more than a deletion plus an insertion.
pub fn sol_2<M: MetricSpace>(x: &[M::Item], y: &[M::Item]) -> (r: Align<M>)
    requires
        gap_free::<M>(x@),
        gap_free::<M>(y@),
        x@.len() < usize::MAX,
        y@.len() < usize::MAX,
        M::cost_fits(cost_bound::<M>(x@.len() as int, y@.len() as int)),
    ensures
        r.0@.len() == r.1@.len(),
        strip_gaps::<M>(r.0@) == x@,
        strip_gaps::<M>(r.1@) == y@,
        sub_dominated::<M>() ==> align_cost::<M>(r.0@, r.1@) == edit_dist::<M>(x@, y@),
        forall|k: int|
            0 <= k < r.0@.len() ==> !(r.0@[k] == M::spec_gap() && r.1@[k] == M::spec_gap()),
{
    let (a, b) = sol_2_ll::<M>(x, y);
    Align(a, b)
}

} // verus!
