//! The algebra of placements that a graph is built over.

use vstd::prelude::*;

verus! {

/// The algebra of placements that a scene graph is built over.
///
/// `Self` is a node's placement relative to its parent: a position, a
/// rotation and a scale, in whatever numbers the implementor works with.
/// `Matrix` is what placements compose into; `Vector` and `Rotation` are
/// what can be read off a matrix. The graph never looks inside any of them:
/// it builds matrices from placements, multiplies them in a fixed order,
/// stores the products, and hands on what the algebra reads off them.
///
/// Each executable method returns exactly what its specification function
/// gives for the same arguments. An implementor thereby promises that its
/// operations are functions of their arguments alone; nothing else is asked:
/// the product need not be associative, nor the identity neutral.
pub trait Transform: Sized {
    /// What placements compose into.
    type Matrix: Copy;

    /// A position or a scale read off a matrix.
    type Vector;

    /// A rotation read off a matrix.
    type Rotation;

    /// The matrix that stands for "no parent".
    spec fn identity_spec() -> Self::Matrix;

    /// `a` applied after `b`: coordinates are first mapped by `b`, then by `a`.
    spec fn product_spec(a: Self::Matrix, b: Self::Matrix) -> Self::Matrix;

    /// The placement of a node that was given none.
    spec fn neutral_spec() -> Self;

    /// The matrix of this placement: position, rotation and scale.
    spec fn matrix_spec(&self) -> Self::Matrix;

    /// The matrix of this placement with its scale forced to one in each
    /// direction, built the way `matrix_spec` builds.
    spec fn matrix_no_scale_spec(&self) -> Self::Matrix;

    /// The matrix built from this placement's position and rotation alone.
    spec fn isometric_matrix_spec(&self) -> Self::Matrix;

    /// The matrix of this placement's scale alone.
    spec fn scale_matrix_spec(&self) -> Self::Matrix;

    /// This placement moved to the origin, rotation and scale untouched.
    spec fn at_origin_spec(&self) -> Self;

    /// Where `m` sends the origin.
    spec fn position_spec(m: Self::Matrix) -> Self::Vector;

    /// The scale in each direction that a matrix of scales holds.
    spec fn scale_spec(m: Self::Matrix) -> Self::Vector;

    /// The rotation nearest to the linear part of `m`.
    spec fn rotation_spec(m: Self::Matrix) -> Self::Rotation;

    /// Computes `identity_spec`.
    fn identity() -> (m: Self::Matrix)
        ensures
            m == Self::identity_spec(),
    ;

    /// Computes `product_spec`.
    fn product(a: &Self::Matrix, b: &Self::Matrix) -> (m: Self::Matrix)
        ensures
            m == Self::product_spec(*a, *b),
    ;

    /// Computes `neutral_spec`.
    fn neutral() -> (t: Self)
        ensures
            t == Self::neutral_spec(),
    ;

    /// Computes `matrix_spec`.
    fn matrix(&self) -> (m: Self::Matrix)
        ensures
            m == self.matrix_spec(),
    ;

    /// Computes `matrix_no_scale_spec`.
    fn matrix_no_scale(&self) -> (m: Self::Matrix)
        ensures
            m == self.matrix_no_scale_spec(),
    ;

    /// Computes `isometric_matrix_spec`.
    fn isometric_matrix(&self) -> (m: Self::Matrix)
        ensures
            m == self.isometric_matrix_spec(),
    ;

    /// Computes `scale_matrix_spec`.
    fn scale_matrix(&self) -> (m: Self::Matrix)
        ensures
            m == self.scale_matrix_spec(),
    ;

    /// Moves this placement to the origin.
    fn reset_position(&mut self)
        ensures
            *final(self) == old(self).at_origin_spec(),
    ;

    /// Computes `position_spec`.
    fn position(m: &Self::Matrix) -> (p: Self::Vector)
        ensures
            p == Self::position_spec(*m),
    ;

    /// Computes `scale_spec`.
    fn scale(m: &Self::Matrix) -> (v: Self::Vector)
        ensures
            v == Self::scale_spec(*m),
    ;

    /// Computes `rotation_spec`.
    fn rotation(m: &Self::Matrix) -> (r: Self::Rotation)
        ensures
            r == Self::rotation_spec(*m),
    ;
}

} // verus!
