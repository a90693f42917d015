//! Construction and validation of filtrations of simplicial complexes.
//!
//! A filtration assigns to every cell of a simplicial complex a *critical
//! grade* — a value from a partially ordered domain — such that the grade of a
//! cell dominates the grades of all of its faces.  The [`Filtration`] engine
//! keeps one grade sequence per dimension in lockstep with the underlying
//! complex and enforces this monotonicity on every insertion.

pub mod filtration;
pub mod simplicial_complex;
pub mod single_collapse;

pub use crate::filtration::Filtration;
pub use crate::filtration::FiltrationError;
pub use crate::single_collapse::SingleCollapser;

use vstd::prelude::*;

verus! {

/// A critical grade: a value from a domain with a partial order `lte_spec`
/// (reflexive, transitive, antisymmetric) and a bottom element `min_spec`
/// below every value of the domain.  Grades may be scalar or vector-valued;
/// the order need not be total.
pub trait CriticalGrade: Sized + Copy {
    /// The partial order of the grade domain.
    spec fn lte_spec(self, other: Self) -> bool;

    /// The bottom element of the grade domain.
    spec fn min_spec() -> Self;

    proof fn lemma_lte_reflexive(a: Self)
        ensures
            a.lte_spec(a),
    ;

    proof fn lemma_lte_transitive(a: Self, b: Self, c: Self)
        requires
            a.lte_spec(b),
            b.lte_spec(c),
        ensures
            a.lte_spec(c),
    ;

    proof fn lemma_lte_antisymmetric(a: Self, b: Self)
        requires
            a.lte_spec(b),
            b.lte_spec(a),
        ensures
            a == b,
    ;

    proof fn lemma_min_value_lte(a: Self)
        ensures
            Self::min_spec().lte_spec(a),
    ;

    /// The bottom element, executable.
    fn min_value() -> (r: Self)
        ensures
            r == Self::min_spec(),
    ;

    /// Whether `self` precedes (or equals) `other` in the partial order.
    fn lte(&self, other: &Self) -> (r: bool)
        ensures
            r == self.lte_spec(*other),
    ;
}

/// Scalar grades: a single parameter under its total order, with bottom `0`.
impl CriticalGrade for usize {
    open spec fn lte_spec(self, other: Self) -> bool {
        self <= other
    }

    open spec fn min_spec() -> Self {
        0usize
    }

    proof fn lemma_lte_reflexive(a: Self) {
    }

    proof fn lemma_lte_transitive(a: Self, b: Self, c: Self) {
    }

    proof fn lemma_lte_antisymmetric(a: Self, b: Self) {
    }

    proof fn lemma_min_value_lte(a: Self) {
    }

    fn min_value() -> (r: Self) {
        0usize
    }

    fn lte(&self, other: &Self) -> (r: bool) {
        *self <= *other
    }
}

/// A two-parameter grade, ordered componentwise.  The order is partial:
/// two grades are incomparable when each exceeds the other in one component.
#[derive(Clone, Copy, Debug, PartialEq, Eq, Structural)]
pub struct BiGrade {
    pub first: usize,
    pub second: usize,
}

impl BiGrade {
    pub fn new(first: usize, second: usize) -> (r: Self)
        ensures
            r == (BiGrade { first, second }),
    {
        BiGrade { first, second }
    }
}

impl CriticalGrade for BiGrade {
    open spec fn lte_spec(self, other: Self) -> bool {
        self.first <= other.first && self.second <= other.second
    }

    open spec fn min_spec() -> Self {
        BiGrade { first: 0usize, second: 0usize }
    }

    proof fn lemma_lte_reflexive(a: Self) {
    }

    proof fn lemma_lte_transitive(a: Self, b: Self, c: Self) {
    }

    proof fn lemma_lte_antisymmetric(a: Self, b: Self) {
    }

    proof fn lemma_min_value_lte(a: Self) {
    }

    fn min_value() -> (r: Self) {
        BiGrade { first: 0usize, second: 0usize }
    }

    fn lte(&self, other: &Self) -> (r: bool) {
        self.first <= other.first && self.second <= other.second
    }
}

} // verus!
