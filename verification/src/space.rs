//! The cost model that every distance and alignment function is generic over.

use vstd::prelude::*;

verus! {

/// A metric space: the element type of the sequences, the cost type, the
/// fixed insertion and deletion costs, the substitution cost function, and a
/// designated gap element that never appears in input sequences.
///
/// Costs are modelled in contracts by the injection `cost_val` into the
/// mathematical integers; `cost_fits` says which integer values the cost type
/// can represent, so that the algorithms can state exactly when their
/// arithmetic stays representable.
pub trait MetricSpace {
    type Item: Copy;
    type Cost: Copy;

    /// The gap element, used only inside alignments.
    spec fn spec_gap() -> Self::Item;

    /// The insertion cost, as an integer.
    spec fn spec_ins() -> int;

    /// The deletion cost, as an integer.
    spec fn spec_del() -> int;

    /// The substitution cost, as an integer.
    spec fn spec_sub(a: Self::Item, b: Self::Item) -> int;

    /// An upper bound on every substitution cost.
    spec fn sub_bound() -> int;

    /// The integer value that a cost carries.
    spec fn cost_val(c: Self::Cost) -> int;

    /// Which integer values the cost type can represent.
    spec fn cost_fits(v: int) -> bool;

    proof fn lemma_costs_nonneg()
        ensures
            0 <= Self::spec_ins(),
            0 <= Self::spec_del(),
    ;

    proof fn lemma_sub_bounds(a: Self::Item, b: Self::Item)
        ensures
            0 <= Self::spec_sub(a, b) <= Self::sub_bound(),
            a == b ==> Self::spec_sub(a, b) == 0,
    ;

    proof fn lemma_fits_mono(v: int, w: int)
        requires
            0 <= v <= w,
            Self::cost_fits(w),
        ensures
            Self::cost_fits(v),
    ;

    fn gap() -> (g: Self::Item)
        ensures
            g == Self::spec_gap(),
    ;

    fn is_gap(a: Self::Item) -> (r: bool)
        ensures
            r == (a == Self::spec_gap()),
    ;

    fn zero_cost() -> (c: Self::Cost)
        ensures
            Self::cost_val(c) == 0,
    ;

    /// An absorbing maximum: at least as large as every representable
    /// non-negative cost.
    fn inf_cost() -> (c: Self::Cost)
        ensures
            forall|v: int| 0 <= v && Self::cost_fits(v) ==> v <= Self::cost_val(c),
    ;

    fn ins_cost() -> (c: Self::Cost)
        ensures
            Self::cost_val(c) == Self::spec_ins(),
    ;

    fn del_cost() -> (c: Self::Cost)
        ensures
            Self::cost_val(c) == Self::spec_del(),
    ;

    /// The substitution cost of two non-gap elements.
    fn sub(a: Self::Item, b: Self::Item) -> (c: Self::Cost)
        requires
            a != Self::spec_gap(),
            b != Self::spec_gap(),
        ensures
            Self::cost_val(c) == Self::spec_sub(a, b),
    ;

    fn add(a: Self::Cost, b: Self::Cost) -> (c: Self::Cost)
        requires
            Self::cost_fits(Self::cost_val(a) + Self::cost_val(b)),
        ensures
            Self::cost_val(c) == Self::cost_val(a) + Self::cost_val(b),
    ;

    fn le(a: Self::Cost, b: Self::Cost) -> (r: bool)
        ensures
            r == (Self::cost_val(a) <= Self::cost_val(b)),
    ;
}

/// The smaller of two integers.
pub open spec fn min_val(a: int, b: int) -> int {
    if a <= b {
        a
    } else {
        b
    }
}

/// The smaller of two costs, by their integer value.
pub fn cost_min<M: MetricSpace>(a: M::Cost, b: M::Cost) -> (c: M::Cost)
    ensures
        M::cost_val(c) == min_val(M::cost_val(a), M::cost_val(b)),
        c == a || c == b,
{
    if M::le(a, b) {
        a
    } else {
        b
    }
}

/// Whether two costs carry the same integer value.
pub fn cost_eq<M: MetricSpace>(a: M::Cost, b: M::Cost) -> (r: bool)
    ensures
        r == (M::cost_val(a) == M::cost_val(b)),
{
    M::le(a, b) && M::le(b, a)
}

} // verus!
