//! DNA sequences and their cost model.

use vstd::prelude::*;

use crate::model::sub_dominated;
use crate::space::MetricSpace;

verus! {

/// One element of a DNA sequence; `Gap` appears only inside alignments.
#[derive(PartialEq, Eq, Structural, Clone, Copy, Debug)]
pub enum Dna {
    A,
    C,
    T,
    G,
    Gap,
}

/// The cost model for DNA sequences: matches are free, a transition
/// (`A`/`T` or `C`/`G`) costs 3, any other substitution costs 4, and an
/// insertion or a deletion costs 2.
#[derive(Debug, PartialEq, Eq)]
pub struct DnaMetricSpace;

/// The substitution cost between two DNA elements.
pub open spec fn dna_sub(a: Dna, b: Dna) -> int {
    if a == b {
        0
    } else if (a == Dna::A && b == Dna::T) || (a == Dna::T && b == Dna::A)
        || (a == Dna::G && b == Dna::C) || (a == Dna::C && b == Dna::G) {
        3
    } else {
        4
    }
}

impl MetricSpace for DnaMetricSpace {
    type Item = Dna;

    type Cost = u64;

    open spec fn spec_gap() -> Dna {
        Dna::Gap
    }

    open spec fn spec_ins() -> int {
        2
    }

    open spec fn spec_del() -> int {
        2
    }

    open spec fn spec_sub(a: Dna, b: Dna) -> int {
        dna_sub(a, b)
    }

    open spec fn sub_bound() -> int {
        4
    }

    open spec fn cost_val(c: u64) -> int {
        c as int
    }

    open spec fn cost_fits(v: int) -> bool {
        0 <= v <= u64::MAX
    }

    proof fn lemma_costs_nonneg() {
    }

    proof fn lemma_sub_bounds(a: Dna, b: Dna) {
    }

    proof fn lemma_fits_mono(v: int, w: int) {
    }

    fn gap() -> (g: Dna) {
        Dna::Gap
    }

    fn is_gap(a: Dna) -> (r: bool) {
        match a {
            Dna::Gap => true,
            _ => false,
        }
    }

    fn zero_cost() -> (c: u64) {
        0
    }

    fn inf_cost() -> (c: u64) {
        u64::MAX
    }

    fn ins_cost() -> (c: u64) {
        2
    }

    fn del_cost() -> (c: u64) {
        2
    }

    fn sub(a: Dna, b: Dna) -> (c: u64) {
        match (a, b) {
            (Dna::A, Dna::A) | (Dna::C, Dna::C) | (Dna::T, Dna::T) | (Dna::G, Dna::G) => 0,
            (Dna::A, Dna::T) | (Dna::T, Dna::A) | (Dna::G, Dna::C) | (Dna::C, Dna::G) => 3,
            _ => 4,
        }
    }

    fn add(a: u64, b: u64) -> (c: u64) {
        a + b
    }

    fn le(a: u64, b: u64) -> (r: bool) {
        a <= b
    }
}

/// Under the DNA cost model no substitution (at most 4) costs more than a
/// deletion plus an insertion (4), so the divide-and-conquer alignment is
/// optimal on every DNA input.
pub proof fn lemma_dna_sub_dominated()
    ensures
        sub_dominated::<DnaMetricSpace>(),
{
}

/// A pair of DNA sequences, as read from one test instance.
#[derive(PartialEq, Eq, Debug)]
pub struct DnaBlock(pub Vec<Dna>, pub Vec<Dna>);

} // verus!
