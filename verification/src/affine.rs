//! Affine transforms of 3D space, as `glam` computes them.
//!
//! The library never looks inside a transform: it makes the identity,
//! composes two transforms and inverts one. Each of these is a call into
//! `glam` whose result is given a name here, so that contracts can say which
//! transform a computation yields without saying what its entries are.

use vstd::prelude::*;

verus! {

/// `glam::Affine3A`, carried through the library as an opaque value.
#[verifier::external_type_specification]
#[verifier::external_body]
pub struct ExAffine3A(glam::Affine3A);

/// Whether `a` equals `glam::Affine3A::IDENTITY`, as `glam` compares two
/// transforms.
pub uninterp spec fn is_identity(a: glam::Affine3A) -> bool;

/// The product `a * b` as `glam` computes it: the transform that applies `b`
/// first and `a` second.
pub uninterp spec fn composed(a: glam::Affine3A, b: glam::Affine3A) -> glam::Affine3A;

/// What `glam::Affine3A::inverse` returns for `a`.
pub uninterp spec fn inverted(a: glam::Affine3A) -> glam::Affine3A;

/// The constant `glam::Affine3A::IDENTITY`. Trusted: that the constant
/// compares equal to itself.
#[verifier::external_body]
pub(crate) fn identity() -> (r: glam::Affine3A)
    ensures
        is_identity(r),
{
    glam::Affine3A::IDENTITY
}

/// `a * b` through `glam`'s `Mul` for `Affine3A`. Trusted: that the product
/// depends on the two operands alone.
#[verifier::external_body]
pub(crate) fn compose(a: glam::Affine3A, b: glam::Affine3A) -> (r: glam::Affine3A)
    ensures
        r == composed(a, b),
{
    a * b
}

/// `glam::Affine3A::inverse`. Trusted: that the result depends on the operand
/// alone. Where `a` has no inverse, `glam` returns all the same, with
/// entries that mean nothing; it panics there only with its feature
/// `glam-assert`, which this crate does not switch on.
#[verifier::external_body]
pub(crate) fn invert(a: glam::Affine3A) -> (r: glam::Affine3A)
    ensures
        r == inverted(a),
{
    a.inverse()
}

} // verus!
