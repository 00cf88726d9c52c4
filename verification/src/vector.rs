//! Plane vectors. Their arithmetic is `glam`'s, reached through `nannou`; this
//! module names its results so that contracts can speak of them.

use vstd::prelude::*;
use nannou::glam::Vec2;

verus! {

#[verifier::external_type_specification]
#[verifier::external_body]
pub struct ExVec2(Vec2);

/// The vector that `Vec2::new` builds from the whole numbers `x` and `y`.
pub uninterp spec fn vec2_at(x: int, y: int) -> Vec2;

/// The vector that `+=` leaves in `a` when `b` is added to it.
pub uninterp spec fn vec2_sum(a: Vec2, b: Vec2) -> Vec2;

/// Calls `Vec2::new` on `x` and `y`, each converted to a float without loss.
/// The result is a function of the two numbers alone.
#[verifier::external_body]
pub(crate) fn vec2_from(x: i16, y: i16) -> (v: Vec2)
    ensures
        v == vec2_at(x as int, y as int),
{
    Vec2::new(x.into(), y.into())
}

/// Calls `Vec2::add_assign`, which replaces `a` by the component-wise sum of
/// `a` and `b`. The sum is a function of the two vectors alone.
#[verifier::external_body]
pub(crate) fn vec2_add_assign(a: &mut Vec2, b: Vec2)
    ensures
        *final(a) == vec2_sum(*old(a), b),
{
    *a += b;
}

} // verus!
