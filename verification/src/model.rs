//! The mathematical model: edit distance over sequences, the cost of an
//! alignment, and the lemmas the algorithms are proved against.

use vstd::prelude::*;

use crate::space::min_val;
use crate::space::MetricSpace;

verus! {

/// No element of `s` is the gap; input sequences must satisfy this.
pub open spec fn gap_free<M: MetricSpace>(s: Seq<M::Item>) -> bool {
    forall|i: int| 0 <= i < s.len() ==> s[i] != M::spec_gap()
}

/// The edit distance between `x` and `y`: the least total cost of
/// substitutions, insertions and deletions turning `x` into `y`.
pub open spec fn edit_dist<M: MetricSpace>(x: Seq<M::Item>, y: Seq<M::Item>) -> int
    decreases x.len() + y.len(),
{
    if x.len() == 0 && y.len() == 0 {
        0
    } else if x.len() == 0 {
        edit_dist::<M>(x, y.drop_last()) + M::spec_ins()
    } else if y.len() == 0 {
        edit_dist::<M>(x.drop_last(), y) + M::spec_del()
    } else {
        min_val(
            edit_dist::<M>(x.drop_last(), y.drop_last()) + M::spec_sub(x.last(), y.last()),
            min_val(
                edit_dist::<M>(x, y.drop_last()) + M::spec_ins(),
                edit_dist::<M>(x.drop_last(), y) + M::spec_del(),
            ),
        )
    }
}

/// The cost one column of an alignment is charged: both sides gaps pay an
/// insertion plus a deletion, one gap pays the matching side's fixed cost,
/// and two elements pay the substitution cost.
pub open spec fn col_cost<M: MetricSpace>(a: M::Item, b: M::Item) -> int {
    if a == M::spec_gap() && b == M::spec_gap() {
        M::spec_ins() + M::spec_del()
    } else if a == M::spec_gap() {
        M::spec_ins()
    } else if b == M::spec_gap() {
        M::spec_del()
    } else {
        M::spec_sub(a, b)
    }
}

/// The total cost of an alignment, column by column.
pub open spec fn align_cost<M: MetricSpace>(xs: Seq<M::Item>, ys: Seq<M::Item>) -> int
    decreases xs.len(),
{
    if xs.len() == 0 || ys.len() == 0 {
        0
    } else {
        col_cost::<M>(xs[0], ys[0]) + align_cost::<M>(xs.skip(1), ys.skip(1))
    }
}

/// `s` with every gap removed.
pub open spec fn strip_gaps<M: MetricSpace>(s: Seq<M::Item>) -> Seq<M::Item>
    decreases s.len(),
{
    if s.len() == 0 {
        Seq::empty()
    } else if s[0] == M::spec_gap() {
        strip_gaps::<M>(s.skip(1))
    } else {
        seq![s[0]] + strip_gaps::<M>(s.skip(1))
    }
}

/// The least substitution cost of `a` against an element of `y`.
pub open spec fn min_sub<M: MetricSpace>(a: M::Item, y: Seq<M::Item>) -> int
    decreases y.len(),
{
    if y.len() <= 1 {
        M::spec_sub(a, y[0])
    } else {
        min_val(min_sub::<M>(a, y.drop_last()), M::spec_sub(a, y.last()))
    }
}

/// An integer that bounds every partial sum the algorithms form while working
/// on sequences of lengths `n` and `m`; contracts require it to be
/// representable in the cost type.
pub open spec fn cost_bound<M: MetricSpace>(n: int, m: int) -> int {
    n * (M::spec_del() + M::sub_bound()) + m * M::spec_ins() + M::sub_bound()
}

/// Whether no substitution costs more than a deletion plus an insertion. The
/// single-element step of the divide-and-conquer alignment is optimal exactly
/// under this condition.
pub open spec fn sub_dominated<M: MetricSpace>() -> bool {
    forall|a: M::Item, b: M::Item|
        M::spec_sub(a, b) <= M::spec_ins() + M::spec_del()
}

/// `cost_bound` is non-negative and grows with both lengths.
pub proof fn lemma_cost_bound_mono<M: MetricSpace>(n1: int, m1: int, n2: int, m2: int)
    requires
        0 <= n1 <= n2,
        0 <= m1 <= m2,
    ensures
        0 <= cost_bound::<M>(n1, m1) <= cost_bound::<M>(n2, m2),
{
    M::lemma_costs_nonneg();
    M::lemma_sub_bounds(M::spec_gap(), M::spec_gap());
    assert(0 <= n1 * (M::spec_del() + M::sub_bound()) <= n2 * (M::spec_del() + M::sub_bound()))
        by (nonlinear_arith)
        requires 0 <= n1 <= n2, 0 <= M::spec_del(), 0 <= M::sub_bound();
    assert(0 <= m1 * M::spec_ins() <= m2 * M::spec_ins())
        by (nonlinear_arith)
        requires 0 <= m1 <= m2, 0 <= M::spec_ins();
}

/// The cost of one column is non-negative and at most an insertion plus a
/// deletion plus the substitution bound.
pub proof fn lemma_col_cost_bounds<M: MetricSpace>(a: M::Item, b: M::Item)
    ensures
        0 <= col_cost::<M>(a, b) <= M::spec_ins() + M::spec_del() + M::sub_bound(),
{
    M::lemma_costs_nonneg();
    M::lemma_sub_bounds(a, b);
}

/// The cost of an alignment of `k` columns is non-negative and lies below
/// `cost_bound(k, k)`.
pub proof fn lemma_align_cost_bounds<M: MetricSpace>(xs: Seq<M::Item>, ys: Seq<M::Item>)
    requires
        xs.len() == ys.len(),
    ensures
        0 <= align_cost::<M>(xs, ys) <= cost_bound::<M>(xs.len() as int, ys.len() as int),
    decreases xs.len(),
{
    M::lemma_costs_nonneg();
    M::lemma_sub_bounds(M::spec_gap(), M::spec_gap());
    if xs.len() == 0 {
    } else {
        lemma_col_cost_bounds::<M>(xs[0], ys[0]);
        lemma_align_cost_bounds::<M>(xs.skip(1), ys.skip(1));
        lemma_cost_bound_mono::<M>(xs.len() - 1, ys.len() - 1, xs.len() as int, ys.len() as int);
        let d = M::spec_del();
        let i = M::spec_ins();
        let s = M::sub_bound();
        let n = xs.len() as int;
        assert((n - 1) * (d + s) + (n - 1) * i + s + (i + d + s) == n * (d + s) + n * i + s)
            by (nonlinear_arith);
    }
}

/// Prepending one element to a stripped sequence: a gap disappears, anything
/// else stays in front.
pub proof fn lemma_strip_prepend<M: MetricSpace>(s: Seq<M::Item>, e: M::Item)
    ensures
        e == M::spec_gap() ==> strip_gaps::<M>(seq![e] + s) == strip_gaps::<M>(s),
        e != M::spec_gap() ==> strip_gaps::<M>(seq![e] + s) == seq![e] + strip_gaps::<M>(s),
{
    assert((seq![e] + s)[0] == e);
    assert((seq![e] + s).skip(1) =~= s);
}

/// Prepending one column to an alignment adds that column's cost.
pub proof fn lemma_align_cost_prepend<M: MetricSpace>(
    xs: Seq<M::Item>,
    ys: Seq<M::Item>,
    a: M::Item,
    b: M::Item,
)
    ensures
        align_cost::<M>(seq![a] + xs, seq![b] + ys)
            == col_cost::<M>(a, b) + align_cost::<M>(xs, ys),
{
    assert((seq![a] + xs)[0] == a);
    assert((seq![b] + ys)[0] == b);
    assert((seq![a] + xs).skip(1) =~= xs);
    assert((seq![b] + ys).skip(1) =~= ys);
}

/// The edit distance is never negative.
pub proof fn lemma_edit_dist_nonneg<M: MetricSpace>(x: Seq<M::Item>, y: Seq<M::Item>)
    ensures
        0 <= edit_dist::<M>(x, y),
    decreases x.len() + y.len(),
{
    M::lemma_costs_nonneg();
    if x.len() == 0 && y.len() == 0 {
    } else if x.len() == 0 {
        lemma_edit_dist_nonneg::<M>(x, y.drop_last());
    } else if y.len() == 0 {
        lemma_edit_dist_nonneg::<M>(x.drop_last(), y);
    } else {
        M::lemma_sub_bounds(x.last(), y.last());
        lemma_edit_dist_nonneg::<M>(x.drop_last(), y.drop_last());
        lemma_edit_dist_nonneg::<M>(x, y.drop_last());
        lemma_edit_dist_nonneg::<M>(x.drop_last(), y);
    }
}

/// Aligning one sequence wholly against gaps bounds the edit distance:
/// it is at most one deletion per element of `x` plus one insertion per
/// element of `y`.
pub proof fn lemma_edit_dist_le_gaps<M: MetricSpace>(x: Seq<M::Item>, y: Seq<M::Item>)
    ensures
        edit_dist::<M>(x, y) <= x.len() * M::spec_del() + y.len() * M::spec_ins(),
    decreases x.len() + y.len(),
{
    M::lemma_costs_nonneg();
    if x.len() == 0 && y.len() == 0 {
    } else if x.len() == 0 {
        lemma_edit_dist_le_gaps::<M>(x, y.drop_last());
        assert((y.len() - 1) * M::spec_ins() + M::spec_ins() == y.len() * M::spec_ins())
            by (nonlinear_arith);
    } else if y.len() == 0 {
        lemma_edit_dist_le_gaps::<M>(x.drop_last(), y);
        assert((x.len() - 1) * M::spec_del() + M::spec_del() == x.len() * M::spec_del())
            by (nonlinear_arith);
    } else {
        lemma_edit_dist_le_gaps::<M>(x, y.drop_last());
        assert((y.len() - 1) * M::spec_ins() + M::spec_ins() == y.len() * M::spec_ins())
            by (nonlinear_arith);
    }
}

/// The edit distance of sequences of lengths `n` and `m` lies below
/// `cost_bound(n, m)`.
pub proof fn lemma_edit_dist_in_bound<M: MetricSpace>(x: Seq<M::Item>, y: Seq<M::Item>)
    ensures
        edit_dist::<M>(x, y) <= cost_bound::<M>(x.len() as int, y.len() as int),
{
    M::lemma_costs_nonneg();
    M::lemma_sub_bounds(M::spec_gap(), M::spec_gap());
    lemma_edit_dist_le_gaps::<M>(x, y);
    assert(x.len() * M::spec_del() <= x.len() * (M::spec_del() + M::sub_bound()))
        by (nonlinear_arith)
        requires 0 <= M::sub_bound(), 0 <= x.len();
}

/// Every sum a dynamic-programming step forms over the cell `(i, j)` stays
/// below `cost_bound` of the two full lengths, and so stays representable.
pub proof fn lemma_dp_step_fits<M: MetricSpace>(
    x: Seq<M::Item>,
    y: Seq<M::Item>,
    i: int,
    j: int,
    a: M::Item,
    b: M::Item,
)
    requires
        0 <= i <= x.len(),
        0 <= j <= y.len(),
        M::cost_fits(cost_bound::<M>(x.len() as int, y.len() as int)),
    ensures
        0 <= edit_dist::<M>(x.take(i), y.take(j)),
        j < y.len() ==> M::cost_fits(edit_dist::<M>(x.take(i), y.take(j)) + M::spec_ins()),
        i < x.len() ==> M::cost_fits(edit_dist::<M>(x.take(i), y.take(j)) + M::spec_del()),
        M::cost_fits(edit_dist::<M>(x.take(i), y.take(j)) + M::spec_sub(a, b)),
{
    M::lemma_costs_nonneg();
    M::lemma_sub_bounds(a, b);
    lemma_edit_dist_nonneg::<M>(x.take(i), y.take(j));
    lemma_edit_dist_le_gaps::<M>(x.take(i), y.take(j));
    let d = M::spec_del();
    let s = M::sub_bound();
    let ic = M::spec_ins();
    let n = x.len() as int;
    let m = y.len() as int;
    if j < m {
        assert(i * d + j * ic + ic <= n * (d + s) + m * ic + s) by (nonlinear_arith)
            requires 0 <= i <= n, 0 <= j <= m - 1, 0 <= d, 0 <= ic, 0 <= s;
        M::lemma_fits_mono(
            edit_dist::<M>(x.take(i), y.take(j)) + M::spec_ins(),
            cost_bound::<M>(n, m),
        );
    }
    if i < n {
        assert(i * d + j * ic + d <= n * (d + s) + m * ic + s) by (nonlinear_arith)
            requires 0 <= i <= n - 1, 0 <= j <= m, 0 <= d, 0 <= ic, 0 <= s;
        M::lemma_fits_mono(
            edit_dist::<M>(x.take(i), y.take(j)) + M::spec_del(),
            cost_bound::<M>(n, m),
        );
    }
    assert(i * d + j * ic + s <= n * (d + s) + m * ic + s) by (nonlinear_arith)
        requires 0 <= i <= n, 0 <= j <= m, 0 <= d, 0 <= ic, 0 <= s;
    M::lemma_fits_mono(
        edit_dist::<M>(x.take(i), y.take(j)) + M::spec_sub(a, b),
        cost_bound::<M>(n, m),
    );
}

/// The edit distance over prefixes satisfies the classic table recurrence in
/// the interior of the table.
pub proof fn lemma_edit_dist_cell<M: MetricSpace>(x: Seq<M::Item>, y: Seq<M::Item>, i: int, j: int)
    requires
        1 <= i <= x.len(),
        1 <= j <= y.len(),
    ensures
        edit_dist::<M>(x.take(i), y.take(j)) == min_val(
            edit_dist::<M>(x.take(i - 1), y.take(j - 1)) + M::spec_sub(x[i - 1], y[j - 1]),
            min_val(
                edit_dist::<M>(x.take(i), y.take(j - 1)) + M::spec_ins(),
                edit_dist::<M>(x.take(i - 1), y.take(j)) + M::spec_del(),
            ),
        ),
{
    assert(x.take(i).drop_last() =~= x.take(i - 1));
    assert(y.take(j).drop_last() =~= y.take(j - 1));
    assert(x.take(i).last() == x[i - 1]);
    assert(y.take(j).last() == y[j - 1]);
}

/// The first row of the table is pure insertion.
pub proof fn lemma_edit_dist_row0<M: MetricSpace>(x: Seq<M::Item>, y: Seq<M::Item>, j: int)
    requires
        1 <= j <= y.len(),
    ensures
        edit_dist::<M>(x.take(0), y.take(j))
            == edit_dist::<M>(x.take(0), y.take(j - 1)) + M::spec_ins(),
        edit_dist::<M>(x.take(0), y.take(0)) == 0,
{
    assert(y.take(j).drop_last() =~= y.take(j - 1));
    assert(x.take(0).len() == 0);
    assert(y.take(0).len() == 0);
    assert(y.take(j).len() == j);
}

/// The first column of the table is pure deletion.
pub proof fn lemma_edit_dist_col0<M: MetricSpace>(x: Seq<M::Item>, y: Seq<M::Item>, i: int)
    requires
        1 <= i <= x.len(),
    ensures
        edit_dist::<M>(x.take(i), y.take(0))
            == edit_dist::<M>(x.take(i - 1), y.take(0)) + M::spec_del(),
        edit_dist::<M>(x.take(0), y.take(0)) == 0,
{
    assert(x.take(i).drop_last() =~= x.take(i - 1));
    assert(x.take(0).len() == 0);
    assert(y.take(0).len() == 0);
    assert(x.take(i).len() == i);
}

/// Every sum the naive recursion forms stays representable: an accumulated
/// cost `cv` plus one more edit operation plus the bound on what the smaller
/// suffixes can still cost stays below `cv + cost_bound` of the current
/// lengths.
pub proof fn lemma_naive_step_fits<M: MetricSpace>(
    x: Seq<M::Item>,
    y: Seq<M::Item>,
    cv: int,
    a: M::Item,
    b: M::Item,
)
    requires
        0 <= cv,
        M::cost_fits(cv + cost_bound::<M>(x.len() as int, y.len() as int)),
    ensures
        x.len() > 0 && y.len() > 0 ==> M::cost_fits(cv + M::spec_sub(a, b))
            && M::cost_fits(cv + M::spec_sub(a, b) + cost_bound::<M>(x.len() - 1, y.len() - 1)),
        x.len() > 0 ==> M::cost_fits(cv + M::spec_del())
            && M::cost_fits(cv + M::spec_del() + cost_bound::<M>(x.len() - 1, y.len() as int)),
        y.len() > 0 ==> M::cost_fits(cv + M::spec_ins())
            && M::cost_fits(cv + M::spec_ins() + cost_bound::<M>(x.len() as int, y.len() - 1)),
{
    M::lemma_costs_nonneg();
    M::lemma_sub_bounds(a, b);
    let d = M::spec_del();
    let ic = M::spec_ins();
    let s = M::sub_bound();
    let n = x.len() as int;
    let m = y.len() as int;
    let sab = M::spec_sub(a, b);
    lemma_cost_bound_mono::<M>(0, 0, n, m);
    if n > 0 && m > 0 {
        assert(sab + ((n - 1) * (d + s) + (m - 1) * ic + s) <= n * (d + s) + m * ic + s)
            by (nonlinear_arith)
            requires 1 <= n, 1 <= m, 0 <= d, 0 <= ic, 0 <= s, 0 <= sab <= s;
        lemma_cost_bound_mono::<M>(0, 0, n - 1, m - 1);
        M::lemma_fits_mono(cv + sab, cv + cost_bound::<M>(n, m));
        M::lemma_fits_mono(cv + sab + cost_bound::<M>(n - 1, m - 1), cv + cost_bound::<M>(n, m));
    }
    if n > 0 {
        assert(d + ((n - 1) * (d + s) + m * ic + s) <= n * (d + s) + m * ic + s)
            by (nonlinear_arith)
            requires 1 <= n, 0 <= m, 0 <= d, 0 <= ic, 0 <= s;
        lemma_cost_bound_mono::<M>(0, 0, n - 1, m);
        M::lemma_fits_mono(cv + d, cv + cost_bound::<M>(n, m));
        M::lemma_fits_mono(cv + d + cost_bound::<M>(n - 1, m), cv + cost_bound::<M>(n, m));
    }
    if m > 0 {
        assert(ic + (n * (d + s) + (m - 1) * ic + s) <= n * (d + s) + m * ic + s)
            by (nonlinear_arith)
            requires 0 <= n, 1 <= m, 0 <= d, 0 <= ic, 0 <= s;
        lemma_cost_bound_mono::<M>(0, 0, n, m - 1);
        M::lemma_fits_mono(cv + ic, cv + cost_bound::<M>(n, m));
        M::lemma_fits_mono(cv + ic + cost_bound::<M>(n, m - 1), cv + cost_bound::<M>(n, m));
    }
}

/// Extending both sequences by one element costs at most one substitution.
pub proof fn lemma_edit_dist_push_both<M: MetricSpace>(
    u: Seq<M::Item>,
    v: Seq<M::Item>,
    a: M::Item,
    b: M::Item,
)
    ensures
        edit_dist::<M>(u.push(a), v.push(b)) <= edit_dist::<M>(u, v) + M::spec_sub(a, b),
{
    assert(u.push(a).drop_last() =~= u);
    assert(v.push(b).drop_last() =~= v);
    assert(u.push(a).last() == a);
    assert(v.push(b).last() == b);
}

/// Extending the first sequence by one element costs at most one deletion.
pub proof fn lemma_edit_dist_push_x<M: MetricSpace>(u: Seq<M::Item>, v: Seq<M::Item>, a: M::Item)
    ensures
        edit_dist::<M>(u.push(a), v) <= edit_dist::<M>(u, v) + M::spec_del(),
{
    assert(u.push(a).drop_last() =~= u);
    assert(u.push(a).last() == a);
}

/// Extending the second sequence by one element costs at most one insertion.
pub proof fn lemma_edit_dist_push_y<M: MetricSpace>(u: Seq<M::Item>, v: Seq<M::Item>, b: M::Item)
    ensures
        edit_dist::<M>(u, v.push(b)) <= edit_dist::<M>(u, v) + M::spec_ins(),
{
    assert(v.push(b).drop_last() =~= v);
    assert(v.push(b).last() == b);
}

/// The edit distance is subadditive under concatenation: editing the two
/// halves separately is never cheaper than editing the wholes.
pub proof fn lemma_edit_dist_subadd<M: MetricSpace>(
    x1: Seq<M::Item>,
    y1: Seq<M::Item>,
    x2: Seq<M::Item>,
    y2: Seq<M::Item>,
)
    ensures
        edit_dist::<M>(x1 + x2, y1 + y2) <= edit_dist::<M>(x1, y1) + edit_dist::<M>(x2, y2),
    decreases x2.len() + y2.len(),
{
    if x2.len() == 0 && y2.len() == 0 {
        assert(x1 + x2 =~= x1);
        assert(y1 + y2 =~= y1);
    } else if x2.len() == 0 {
        lemma_edit_dist_subadd::<M>(x1, y1, x2, y2.drop_last());
        lemma_edit_dist_push_y::<M>(x1 + x2, y1 + y2.drop_last(), y2.last());
        assert((y1 + y2.drop_last()).push(y2.last()) =~= y1 + y2);
    } else if y2.len() == 0 {
        lemma_edit_dist_subadd::<M>(x1, y1, x2.drop_last(), y2);
        lemma_edit_dist_push_x::<M>(x1 + x2.drop_last(), y1 + y2, x2.last());
        assert((x1 + x2.drop_last()).push(x2.last()) =~= x1 + x2);
    } else {
        let e = edit_dist::<M>(x2, y2);
        let diag = edit_dist::<M>(x2.drop_last(), y2.drop_last())
            + M::spec_sub(x2.last(), y2.last());
        let insv = edit_dist::<M>(x2, y2.drop_last()) + M::spec_ins();
        if e == diag {
            lemma_edit_dist_subadd::<M>(x1, y1, x2.drop_last(), y2.drop_last());
            lemma_edit_dist_push_both::<M>(
                x1 + x2.drop_last(),
                y1 + y2.drop_last(),
                x2.last(),
                y2.last(),
            );
            assert((x1 + x2.drop_last()).push(x2.last()) =~= x1 + x2);
            assert((y1 + y2.drop_last()).push(y2.last()) =~= y1 + y2);
        } else if e == insv {
            lemma_edit_dist_subadd::<M>(x1, y1, x2, y2.drop_last());
            lemma_edit_dist_push_y::<M>(x1 + x2, y1 + y2.drop_last(), y2.last());
            assert((y1 + y2.drop_last()).push(y2.last()) =~= y1 + y2);
        } else {
            lemma_edit_dist_subadd::<M>(x1, y1, x2.drop_last(), y2);
            lemma_edit_dist_push_x::<M>(x1 + x2.drop_last(), y1 + y2, x2.last());
            assert((x1 + x2.drop_last()).push(x2.last()) =~= x1 + x2);
        }
    }
}

/// Stripping gaps distributes over concatenation.
pub proof fn lemma_strip_concat<M: MetricSpace>(s: Seq<M::Item>, t: Seq<M::Item>)
    ensures
        strip_gaps::<M>(s + t) == strip_gaps::<M>(s) + strip_gaps::<M>(t),
    decreases s.len(),
{
    if s.len() == 0 {
        assert(s + t =~= t);
        assert(strip_gaps::<M>(s) + strip_gaps::<M>(t) =~= strip_gaps::<M>(t));
    } else {
        assert((s + t)[0] == s[0]);
        assert((s + t).skip(1) =~= s.skip(1) + t);
        lemma_strip_concat::<M>(s.skip(1), t);
        if s[0] != M::spec_gap() {
            assert(seq![s[0]] + (strip_gaps::<M>(s.skip(1)) + strip_gaps::<M>(t))
                =~= (seq![s[0]] + strip_gaps::<M>(s.skip(1))) + strip_gaps::<M>(t));
        }
    }
}

/// A sequence of gaps strips to nothing.
pub proof fn lemma_strip_all_gaps<M: MetricSpace>(s: Seq<M::Item>)
    requires
        forall|i: int| 0 <= i < s.len() ==> s[i] == M::spec_gap(),
    ensures
        strip_gaps::<M>(s) == Seq::<M::Item>::empty(),
    decreases s.len(),
{
    if s.len() > 0 {
        lemma_strip_all_gaps::<M>(s.skip(1));
    }
}

/// A gap-free sequence strips to itself.
pub proof fn lemma_strip_gap_free<M: MetricSpace>(s: Seq<M::Item>)
    requires
        gap_free::<M>(s),
    ensures
        strip_gaps::<M>(s) == s,
    decreases s.len(),
{
    if s.len() > 0 {
        lemma_strip_gap_free::<M>(s.skip(1));
        assert(seq![s[0]] + s.skip(1) =~= s);
    }
}

/// The cost of an alignment splits over a column-wise concatenation.
pub proof fn lemma_align_cost_concat<M: MetricSpace>(
    x1: Seq<M::Item>,
    y1: Seq<M::Item>,
    x2: Seq<M::Item>,
    y2: Seq<M::Item>,
)
    requires
        x1.len() == y1.len(),
    ensures
        align_cost::<M>(x1 + x2, y1 + y2) == align_cost::<M>(x1, y1) + align_cost::<M>(x2, y2),
    decreases x1.len(),
{
    if x1.len() == 0 {
        assert(x1 + x2 =~= x2);
        assert(y1 + y2 =~= y2);
    } else {
        assert((x1 + x2)[0] == x1[0]);
        assert((y1 + y2)[0] == y1[0]);
        assert((x1 + x2).skip(1) =~= x1.skip(1) + x2);
        assert((y1 + y2).skip(1) =~= y1.skip(1) + y2);
        lemma_align_cost_concat::<M>(x1.skip(1), y1.skip(1), x2, y2);
    }
}

/// Aligning a word of gaps against a gap-free word of the same length costs
/// one insertion per column.
pub proof fn lemma_align_cost_gaps<M: MetricSpace>(g: Seq<M::Item>, t: Seq<M::Item>)
    requires
        g.len() == t.len(),
        forall|i: int| 0 <= i < g.len() ==> g[i] == M::spec_gap(),
        gap_free::<M>(t),
    ensures
        align_cost::<M>(g, t) == g.len() * M::spec_ins(),
    decreases g.len(),
{
    if g.len() > 0 {
        assert(forall|i: int| 0 <= i < g.skip(1).len() ==> g.skip(1)[i] == g[i + 1]);
        assert(forall|i: int| 0 <= i < t.skip(1).len() ==> t.skip(1)[i] == t[i + 1]);
        lemma_align_cost_gaps::<M>(g.skip(1), t.skip(1));
        assert(col_cost::<M>(g[0], t[0]) == M::spec_ins());
        assert((g.len() - 1) * M::spec_ins() + M::spec_ins() == g.len() * M::spec_ins())
            by (nonlinear_arith);
    } else {
        assert(g.len() * M::spec_ins() == 0) by (nonlinear_arith)
            requires g.len() == 0;
    }
}

/// Aligning a gap-free word against a word of gaps of the same length costs
/// one deletion per column.
pub proof fn lemma_align_cost_gaps_x<M: MetricSpace>(t: Seq<M::Item>, g: Seq<M::Item>)
    requires
        t.len() == g.len(),
        forall|i: int| 0 <= i < g.len() ==> g[i] == M::spec_gap(),
        gap_free::<M>(t),
    ensures
        align_cost::<M>(t, g) == t.len() * M::spec_del(),
    decreases t.len(),
{
    if t.len() > 0 {
        assert(forall|i: int| 0 <= i < g.skip(1).len() ==> g.skip(1)[i] == g[i + 1]);
        assert(forall|i: int| 0 <= i < t.skip(1).len() ==> t.skip(1)[i] == t[i + 1]);
        lemma_align_cost_gaps_x::<M>(t.skip(1), g.skip(1));
        assert(col_cost::<M>(t[0], g[0]) == M::spec_del());
        assert((t.len() - 1) * M::spec_del() + M::spec_del() == t.len() * M::spec_del())
            by (nonlinear_arith);
    } else {
        assert(t.len() * M::spec_del() == 0) by (nonlinear_arith)
            requires t.len() == 0;
    }
}

/// The least substitution cost against a non-empty word is a substitution
/// cost, so it obeys the substitution bounds.
pub proof fn lemma_min_sub_bounds<M: MetricSpace>(a: M::Item, y: Seq<M::Item>)
    requires
        y.len() >= 1,
    ensures
        0 <= min_sub::<M>(a, y) <= M::sub_bound(),
    decreases y.len(),
{
    if y.len() == 1 {
        M::lemma_sub_bounds(a, y[0]);
    } else {
        M::lemma_sub_bounds(a, y.last());
        lemma_min_sub_bounds::<M>(a, y.drop_last());
    }
}

/// Against a single letter, when no substitution costs more than a deletion
/// plus an insertion, the best alignment matches the letter where
/// substitution is cheapest and pays an insertion for every other column.
pub proof fn lemma_edit_dist_single<M: MetricSpace>(a: M::Item, y: Seq<M::Item>)
    requires
        y.len() >= 1,
        sub_dominated::<M>(),
    ensures
        edit_dist::<M>(seq![a], y) == min_sub::<M>(a, y) + (y.len() - 1) * M::spec_ins(),
    decreases y.len(),
{
    M::lemma_costs_nonneg();
    let s1 = seq![a];
    assert(s1.len() == 1);
    assert(s1.drop_last() =~= Seq::<M::Item>::empty());
    lemma_edit_dist_empty::<M>(s1);
    lemma_edit_dist_empty::<M>(y);
    if y.len() == 1 {
        assert(y.drop_last() =~= Seq::<M::Item>::empty());
        assert(y.last() == y[0]);
        assert(M::spec_sub(a, y[0]) <= M::spec_ins() + M::spec_del());
        lemma_min_sub_bounds::<M>(a, y);
    } else {
        lemma_edit_dist_empty::<M>(y.drop_last());
        lemma_edit_dist_single::<M>(a, y.drop_last());
        lemma_min_sub_bounds::<M>(a, y.drop_last());
        M::lemma_sub_bounds(a, y.last());
        assert(M::spec_sub(a, y.last()) <= M::spec_ins() + M::spec_del());
        let k = y.len() as int;
        let ic = M::spec_ins();
        assert((k - 2) * ic + ic == (k - 1) * ic) by (nonlinear_arith);
        assert((k - 1) * ic + ic == k * ic) by (nonlinear_arith);
    }
}

/// The divide property: the edit distance of `(x, y)` splits exactly at row
/// `icut` of `x` and column `q` of `y`.
pub open spec fn splits_at<M: MetricSpace>(
    x: Seq<M::Item>,
    y: Seq<M::Item>,
    icut: int,
    i: int,
    j: int,
    q: int,
) -> bool {
    &&& 0 <= q <= j
    &&& edit_dist::<M>(x.take(i), y.take(j)) == edit_dist::<M>(x.take(icut), y.take(q))
        + edit_dist::<M>(x.take(i).skip(icut), y.take(j).skip(q))
}

/// At row `icut` itself the split is trivial: everything before the cut is
/// the first half, nothing has been consumed of the second.
pub proof fn lemma_splits_identity<M: MetricSpace>(x: Seq<M::Item>, y: Seq<M::Item>, icut: int, j: int)
    requires
        0 <= icut <= x.len(),
        0 <= j <= y.len(),
    ensures
        splits_at::<M>(x, y, icut, icut, j, j),
{
    assert(x.take(icut).skip(icut) =~= Seq::<M::Item>::empty());
    assert(y.take(j).skip(j) =~= Seq::<M::Item>::empty());
}

/// In column zero the split passes through column zero: both sides of the cut
/// are pure deletion.
pub proof fn lemma_splits_col0<M: MetricSpace>(x: Seq<M::Item>, y: Seq<M::Item>, icut: int, i: int)
    requires
        0 <= icut <= i <= x.len(),
    ensures
        splits_at::<M>(x, y, icut, i, 0, 0),
{
    assert(y.take(0) =~= Seq::<M::Item>::empty());
    lemma_edit_dist_empty::<M>(x.take(i));
    lemma_edit_dist_empty::<M>(x.take(icut));
    lemma_edit_dist_empty::<M>(x.take(i).skip(icut));
    assert(y.take(0).skip(0) =~= Seq::<M::Item>::empty());
    assert(x.take(i).len() == i);
    assert(x.take(icut).len() == icut);
    assert(x.take(i).skip(icut).len() == i - icut);
    let d = M::spec_del();
    assert(icut * d + (i - icut) * d == i * d) by (nonlinear_arith);
}

/// A split of the predecessor cell survives a diagonal step: the second half
/// grows by one substituted column on each side.
pub proof fn lemma_splits_step_diag<M: MetricSpace>(
    x: Seq<M::Item>,
    y: Seq<M::Item>,
    icut: int,
    i: int,
    j: int,
    q: int,
)
    requires
        0 <= icut <= i - 1,
        1 <= i <= x.len(),
        1 <= j <= y.len(),
        0 <= q <= j - 1,
        splits_at::<M>(x, y, icut, i - 1, j - 1, q),
        edit_dist::<M>(x.take(i), y.take(j))
            == edit_dist::<M>(x.take(i - 1), y.take(j - 1)) + M::spec_sub(x[i - 1], y[j - 1]),
    ensures
        splits_at::<M>(x, y, icut, i, j, q),
{
    assert(x.take(i).skip(icut) =~= x.take(i - 1).skip(icut).push(x[i - 1]));
    assert(y.take(j).skip(q) =~= y.take(j - 1).skip(q).push(y[j - 1]));
    lemma_edit_dist_push_both::<M>(
        x.take(i - 1).skip(icut),
        y.take(j - 1).skip(q),
        x[i - 1],
        y[j - 1],
    );
    assert(x.take(icut) + x.take(i).skip(icut) =~= x.take(i));
    assert(y.take(q) + y.take(j).skip(q) =~= y.take(j));
    lemma_edit_dist_subadd::<M>(x.take(icut), y.take(q), x.take(i).skip(icut), y.take(j).skip(q));
}

/// A split of the cell above survives a deletion step.
pub proof fn lemma_splits_step_del<M: MetricSpace>(
    x: Seq<M::Item>,
    y: Seq<M::Item>,
    icut: int,
    i: int,
    j: int,
    q: int,
)
    requires
        0 <= icut <= i - 1,
        1 <= i <= x.len(),
        0 <= j <= y.len(),
        0 <= q <= j,
        splits_at::<M>(x, y, icut, i - 1, j, q),
        edit_dist::<M>(x.take(i), y.take(j))
            == edit_dist::<M>(x.take(i - 1), y.take(j)) + M::spec_del(),
    ensures
        splits_at::<M>(x, y, icut, i, j, q),
{
    assert(x.take(i).skip(icut) =~= x.take(i - 1).skip(icut).push(x[i - 1]));
    lemma_edit_dist_push_x::<M>(x.take(i - 1).skip(icut), y.take(j).skip(q), x[i - 1]);
    assert(x.take(icut) + x.take(i).skip(icut) =~= x.take(i));
    assert(y.take(q) + y.take(j).skip(q) =~= y.take(j));
    lemma_edit_dist_subadd::<M>(x.take(icut), y.take(q), x.take(i).skip(icut), y.take(j).skip(q));
}

/// A split of the cell to the left survives an insertion step.
pub proof fn lemma_splits_step_ins<M: MetricSpace>(
    x: Seq<M::Item>,
    y: Seq<M::Item>,
    icut: int,
    i: int,
    j: int,
    q: int,
)
    requires
        0 <= icut <= i,
        i <= x.len(),
        1 <= j <= y.len(),
        0 <= q <= j - 1,
        splits_at::<M>(x, y, icut, i, j - 1, q),
        edit_dist::<M>(x.take(i), y.take(j))
            == edit_dist::<M>(x.take(i), y.take(j - 1)) + M::spec_ins(),
    ensures
        splits_at::<M>(x, y, icut, i, j, q),
{
    assert(y.take(j).skip(q) =~= y.take(j - 1).skip(q).push(y[j - 1]));
    lemma_edit_dist_push_y::<M>(x.take(i).skip(icut), y.take(j - 1).skip(q), y[j - 1]);
    assert(x.take(icut) + x.take(i).skip(icut) =~= x.take(i));
    assert(y.take(q) + y.take(j).skip(q) =~= y.take(j));
    lemma_edit_dist_subadd::<M>(x.take(icut), y.take(q), x.take(i).skip(icut), y.take(j).skip(q));
}

/// Emptying one side pins the edit distance down exactly: against the empty
/// sequence everything is deleted, or everything is inserted.
pub proof fn lemma_edit_dist_empty<M: MetricSpace>(s: Seq<M::Item>)
    ensures
        edit_dist::<M>(s, Seq::empty()) == s.len() * M::spec_del(),
        edit_dist::<M>(Seq::empty(), s) == s.len() * M::spec_ins(),
    decreases s.len(),
{
    if s.len() == 0 {
    } else {
        lemma_edit_dist_empty::<M>(s.drop_last());
        assert((s.len() - 1) * M::spec_del() + M::spec_del() == s.len() * M::spec_del())
            by (nonlinear_arith);
        assert((s.len() - 1) * M::spec_ins() + M::spec_ins() == s.len() * M::spec_ins())
            by (nonlinear_arith);
    }
}

} // verus!
