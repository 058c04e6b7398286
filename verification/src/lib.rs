//! Generic edit distance and optimal sequence alignment.
//!
//! The algorithms are parametric over a cost model (the [`space::MetricSpace`]
//! trait): an element type, a cost type, fixed insertion and deletion costs,
//! and a substitution cost function. Distances can be computed naively (an
//! exponential oracle), with a full dynamic-programming table, or in linear
//! memory; alignments come either from a backtrace over the full table or
//! from a linear-memory divide-and-conquer scheme.

pub mod dna;
pub mod math;
pub mod model;
pub mod space;
