//! Placements on the integer plane with rotations by quarter turns: an
//! exact algebra for the graph, for grids and for tests.

use crate::transform::Transform;
use vstd::prelude::*;

verus! {

/// An affine map of the integer plane,
/// `(x, y) -> (a*x + b*y + tx, c*x + d*y + ty)`.
///
/// All arithmetic wraps at 64 bits, so that every product is defined.
#[derive(Clone, Copy, PartialEq, Eq, Structural, Debug)]
pub struct Affine {
    pub a: i64,
    pub b: i64,
    pub c: i64,
    pub d: i64,
    pub tx: i64,
    pub ty: i64,
}

/// `x*y + z*w`, wrapping.
pub open spec fn dot2(x: i64, y: i64, z: i64, w: i64) -> i64 {
    x.wrapping_mul(y).wrapping_add(z.wrapping_mul(w))
}

fn dot2_exec(x: i64, y: i64, z: i64, w: i64) -> (r: i64)
    ensures
        r == dot2(x, y, z, w),
{
    x.wrapping_mul(y).wrapping_add(z.wrapping_mul(w))
}

impl Affine {
    /// The map that moves nothing.
    pub open spec fn unit() -> Affine {
        Affine { a: 1, b: 0, c: 0, d: 1, tx: 0, ty: 0 }
    }

    /// The map that applies `rhs` first and `self` after it.
    pub open spec fn times(self, rhs: Affine) -> Affine {
        Affine {
            a: dot2(self.a, rhs.a, self.b, rhs.c),
            b: dot2(self.a, rhs.b, self.b, rhs.d),
            c: dot2(self.c, rhs.a, self.d, rhs.c),
            d: dot2(self.c, rhs.b, self.d, rhs.d),
            tx: dot2(self.a, rhs.tx, self.b, rhs.ty).wrapping_add(self.tx),
            ty: dot2(self.c, rhs.tx, self.d, rhs.ty).wrapping_add(self.ty),
        }
    }

    /// The unit is neutral on both sides.
    pub proof fn law_unit_neutral(m: Affine)
        ensures
            Affine::unit().times(m) == m,
            m.times(Affine::unit()) == m,
    {
    }
}

/// The cosine of `turns` quarter turns.
pub open spec fn quarter_cos(turns: u8) -> i64 {
    if turns % 4 == 0 {
        1
    } else if turns % 4 == 2 {
        -1i64
    } else {
        0
    }
}

/// The sine of `turns` quarter turns.
pub open spec fn quarter_sin(turns: u8) -> i64 {
    if turns % 4 == 1 {
        1
    } else if turns % 4 == 3 {
        -1i64
    } else {
        0
    }
}

/// A placement on the integer plane: a position, a rotation by quarter
/// turns, counted anticlockwise, and a scale in each direction.
#[derive(Clone, Copy, PartialEq, Eq, Structural, Debug)]
pub struct Placement {
    pub x: i64,
    pub y: i64,
    pub turns: u8,
    pub scale_x: i64,
    pub scale_y: i64,
}

impl Placement {
    /// The unrotated, unscaled placement at `(x, y)`.
    pub fn at(x: i64, y: i64) -> (p: Placement)
        ensures
            p == (Placement { x, y, turns: 0, scale_x: 1, scale_y: 1 }),
    {
        Placement { x, y, turns: 0, scale_x: 1, scale_y: 1 }
    }

    /// The map that scales by `(sx, sy)`, then rotates by `turns` quarter
    /// turns, then moves the origin to `(x, y)`.
    pub open spec fn build(x: i64, y: i64, turns: u8, sx: i64, sy: i64) -> Affine {
        Affine {
            a: quarter_cos(turns).wrapping_mul(sx),
            b: 0i64.wrapping_sub(quarter_sin(turns)).wrapping_mul(sy),
            c: quarter_sin(turns).wrapping_mul(sx),
            d: quarter_cos(turns).wrapping_mul(sy),
            tx: x,
            ty: y,
        }
    }

    fn build_exec(x: i64, y: i64, turns: u8, sx: i64, sy: i64) -> (m: Affine)
        ensures
            m == Placement::build(x, y, turns, sx, sy),
    {
        let quarter: u8 = turns % 4;
        let cos: i64 = if quarter == 0 {
            1
        } else if quarter == 2 {
            -1
        } else {
            0
        };
        let sin: i64 = if quarter == 1 {
            1
        } else if quarter == 3 {
            -1
        } else {
            0
        };
        Affine {
            a: cos.wrapping_mul(sx),
            b: 0i64.wrapping_sub(sin).wrapping_mul(sy),
            c: sin.wrapping_mul(sx),
            d: cos.wrapping_mul(sy),
            tx: x,
            ty: y,
        }
    }

    /// The neutral placement has the unit as its matrix.
    pub proof fn law_neutral_is_unit()
        ensures
            Placement::neutral_spec().matrix_spec() == Affine::unit(),
    {
    }
}

/// The number of quarter turns, from none to three, of the rotation nearest
/// to the linear part of `m`: the quarter into which `m` turns the x axis.
pub open spec fn quarter_of(m: Affine) -> u8 {
    if m.a > 0 {
        0
    } else if m.c > 0 {
        1
    } else if m.a < 0 {
        2
    } else if m.c < 0 {
        3
    } else {
        0
    }
}

impl Transform for Placement {
    type Matrix = Affine;

    type Vector = (i64, i64);

    type Rotation = u8;

    open spec fn identity_spec() -> Affine {
        Affine::unit()
    }

    open spec fn product_spec(a: Affine, b: Affine) -> Affine {
        a.times(b)
    }

    open spec fn neutral_spec() -> Placement {
        Placement { x: 0, y: 0, turns: 0, scale_x: 1, scale_y: 1 }
    }

    open spec fn matrix_spec(&self) -> Affine {
        Placement::build(self.x, self.y, self.turns, self.scale_x, self.scale_y)
    }

    open spec fn matrix_no_scale_spec(&self) -> Affine {
        Placement::build(self.x, self.y, self.turns, 1, 1)
    }

    open spec fn isometric_matrix_spec(&self) -> Affine {
        Placement::build(self.x, self.y, self.turns, 1, 1)
    }

    open spec fn scale_matrix_spec(&self) -> Affine {
        Placement::build(0, 0, 0, self.scale_x, self.scale_y)
    }

    open spec fn at_origin_spec(&self) -> Placement {
        Placement { x: 0, y: 0, ..*self }
    }

    open spec fn position_spec(m: Affine) -> (i64, i64) {
        (m.tx, m.ty)
    }

    open spec fn scale_spec(m: Affine) -> (i64, i64) {
        (m.a, m.d)
    }

    open spec fn rotation_spec(m: Affine) -> u8 {
        quarter_of(m)
    }

    fn identity() -> (m: Affine) {
        Affine { a: 1, b: 0, c: 0, d: 1, tx: 0, ty: 0 }
    }

    fn product(a: &Affine, b: &Affine) -> (m: Affine) {
        Affine {
            a: dot2_exec(a.a, b.a, a.b, b.c),
            b: dot2_exec(a.a, b.b, a.b, b.d),
            c: dot2_exec(a.c, b.a, a.d, b.c),
            d: dot2_exec(a.c, b.b, a.d, b.d),
            tx: dot2_exec(a.a, b.tx, a.b, b.ty).wrapping_add(a.tx),
            ty: dot2_exec(a.c, b.tx, a.d, b.ty).wrapping_add(a.ty),
        }
    }

    fn neutral() -> (t: Placement) {
        Placement { x: 0, y: 0, turns: 0, scale_x: 1, scale_y: 1 }
    }

    fn matrix(&self) -> (m: Affine) {
        Placement::build_exec(self.x, self.y, self.turns, self.scale_x, self.scale_y)
    }

    fn matrix_no_scale(&self) -> (m: Affine) {
        Placement::build_exec(self.x, self.y, self.turns, 1, 1)
    }

    fn isometric_matrix(&self) -> (m: Affine) {
        Placement::build_exec(self.x, self.y, self.turns, 1, 1)
    }

    fn scale_matrix(&self) -> (m: Affine) {
        Placement::build_exec(0, 0, 0, self.scale_x, self.scale_y)
    }

    fn reset_position(&mut self) {
        self.x = 0;
        self.y = 0;
    }

    fn position(m: &Affine) -> (p: (i64, i64)) {
        (m.tx, m.ty)
    }

    fn scale(m: &Affine) -> (v: (i64, i64)) {
        (m.a, m.d)
    }

    fn rotation(m: &Affine) -> (r: u8) {
        if m.a > 0 {
            0
        } else if m.c > 0 {
            1
        } else if m.a < 0 {
            2
        } else if m.c < 0 {
            3
        } else {
            0
        }
    }
}

} // verus!
