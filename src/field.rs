use vstd::prelude::*;

verus! {

/// The capabilities a scalar type must offer to the linear-algebra routines.
///
/// Every operation has a mathematical counterpart (`*_spec`) that the
/// contracts of the library speak of. The laws below are all the engine needs:
/// the identities are told apart by the zero test, and magnitudes order zero
/// below every non-zero value. Pivot selection compares magnitudes only, so
/// the scalar need not be ordered (complex numbers qualify). The zero test is
/// the implementation's to choose: exact for exact scalars, within a tolerance
/// for approximate ones.
pub trait Field: Sized + Copy {
    spec fn zero_spec() -> Self;

    spec fn one_spec() -> Self;

    spec fn add_spec(self, b: Self) -> Self;

    spec fn sub_spec(self, b: Self) -> Self;

    spec fn mul_spec(self, b: Self) -> Self;

    spec fn div_spec(self, b: Self) -> Self;

    spec fn neg_spec(self) -> Self;

    /// Whether the value is the additive identity.
    spec fn is_zero_spec(self) -> bool;

    /// Whether the magnitude of `self` is strictly larger than that of `b`.
    spec fn mag_gt_spec(self, b: Self) -> bool;

    proof fn lemma_identities()
        ensures
            Self::zero_spec().is_zero_spec(),
            !Self::one_spec().is_zero_spec(),
    ;

    /// A non-zero value is strictly larger in magnitude than zero, and zero is
    /// strictly larger in magnitude than nothing.
    proof fn lemma_zero_least(a: Self, b: Self)
        ensures
            (!a.is_zero_spec() && b.is_zero_spec()) ==> a.mag_gt_spec(b),
            a.is_zero_spec() ==> !a.mag_gt_spec(b),
    ;

    /// Comparing magnitudes is a strict weak order: irreflexive, transitive,
    /// and whatever lies strictly between two magnitudes is comparable to both.
    proof fn lemma_mag_order(a: Self, b: Self, c: Self)
        ensures
            !a.mag_gt_spec(a),
            a.mag_gt_spec(b) && b.mag_gt_spec(c) ==> a.mag_gt_spec(c),
            a.mag_gt_spec(c) ==> a.mag_gt_spec(b) || b.mag_gt_spec(c),
    ;

    /// A product of non-zero values is non-zero, and so is the negation of one.
    proof fn lemma_no_zero_divisors(a: Self, b: Self)
        ensures
            !a.is_zero_spec() && !b.is_zero_spec() ==> !a.mul_spec(b).is_zero_spec(),
            !a.is_zero_spec() ==> !a.neg_spec().is_zero_spec(),
    ;

    fn zero() -> (r: Self)
        ensures
            r == Self::zero_spec(),
    ;

    fn one() -> (r: Self)
        ensures
            r == Self::one_spec(),
    ;

    fn add(&self, b: &Self) -> (r: Self)
        ensures
            r == self.add_spec(*b),
    ;

    fn sub(&self, b: &Self) -> (r: Self)
        ensures
            r == self.sub_spec(*b),
    ;

    fn mul(&self, b: &Self) -> (r: Self)
        ensures
            r == self.mul_spec(*b),
    ;

    fn div(&self, b: &Self) -> (r: Self)
        ensures
            r == self.div_spec(*b),
    ;

    fn neg(&self) -> (r: Self)
        ensures
            r == self.neg_spec(),
    ;

    fn is_zero(&self) -> (r: bool)
        ensures
            r == self.is_zero_spec(),
    ;

    fn mag_gt(&self, b: &Self) -> (r: bool)
        ensures
            r == self.mag_gt_spec(*b),
    ;
}

/// Equality of values, for comparing computed results with expected ones:
/// exact for exact scalars, within a tolerance for approximate ones.
pub trait Equals: Sized {
    spec fn equals_spec(self, v: Self) -> bool;

    fn equals(&self, v: &Self) -> (r: bool)
        ensures
            r == self.equals_spec(*v),
    ;
}

/// Complex conjugation; the identity on real scalars.
pub trait Conjugate: Sized {
    spec fn conjugate_spec(self) -> Self;

    fn conjugate(&self) -> (r: Self)
        ensures
            r == self.conjugate_spec(),
    ;
}

} // verus!
