//! 4x4 affine transforms, held as glam's `Mat4`.
use vstd::prelude::*;

verus! {

#[verifier::external_type_specification]
#[verifier::external_body]
pub struct ExMat4(glam::Mat4);

/// The product `a * b` of two matrices as glam computes it (parent space on the
/// left). It depends on the two operands alone.
pub uninterp spec fn mat_mul(a: glam::Mat4, b: glam::Mat4) -> glam::Mat4;

/// Relies on glam's `Mat4::mul_mat4`: the matrix product of `a` and `b`.
#[verifier::external_body]
pub(crate) fn compose(a: &glam::Mat4, b: &glam::Mat4) -> (r: glam::Mat4)
    ensures
        r == mat_mul(*a, *b),
{
    a.mul_mat4(b)
}

/// Relies on glam's `Mat4::IDENTITY`: the identity matrix.
#[verifier::external_body]
pub(crate) fn identity() -> (r: glam::Mat4) {
    glam::Mat4::IDENTITY
}

} // verus!
