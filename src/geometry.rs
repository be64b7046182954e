//! Per-vertex and per-pixel attribute bundles, in fixed point.
use vstd::prelude::*;
use crate::color::Color;
use crate::fixed::{floor_div, isqrt, isqrt_spec, is_isqrt, ONE};

verus! {

/// Bound on the magnitude of a screen-space x or y coordinate, in fixed point
/// (32768 pixels on either side of the origin).
pub const COORD_LIMIT: i64 = 2147483648;

/// Bound on the magnitude of a depth, a normal component or an object-space
/// coordinate, in fixed point.
pub const VALUE_LIMIT: i64 = 1099511627776;

/// Three fixed-point coordinates.
#[derive(Clone, Copy, Debug, PartialEq, Eq, Structural)]
pub struct Fixed3 {
    pub x: i64,
    pub y: i64,
    pub z: i64,
}

impl Fixed3 {
    pub fn new(x: i64, y: i64, z: i64) -> (p: Fixed3)
        ensures
            p.x == x && p.y == y && p.z == z,
    {
        Fixed3 { x, y, z }
    }

    /// The vector scaled to unit length in fixed point, each component rounded
    /// down; the zero vector stays zero.
    pub fn normalize(&self) -> (u: Fixed3)
        requires
            self.within_twice_limit(),
        ensures
            u == normalized(*self),
            -ONE <= u.x <= ONE,
            -ONE <= u.y <= ONE,
            -ONE <= u.z <= ONE,
    {
        let (x, y, z) = (self.x as i128, self.y as i128, self.z as i128);
        proof {
            let l = 2 * VALUE_LIMIT;
            assert(0 <= x * x <= 0x4_0000_0000_0000_0000_0000 && 0 <= y * y
                <= 0x4_0000_0000_0000_0000_0000 && 0 <= z * z <= 0x4_0000_0000_0000_0000_0000)
                by (nonlinear_arith)
                requires
                    l == 0x200_0000_0000,
                    -l <= x <= l,
                    -l <= y <= l,
                    -l <= z <= l,
            ;
        }
        let v: i128 = x * x + y * y + z * z;
        assert(0 <= v <= 0x4_0000_0000_0000_0000_0000 * 3);
        let len = isqrt(v as u128);
        if len == 0 {
            return Fixed3 { x: 0, y: 0, z: 0 };
        }
        proof {
            assert(len <= 0x1_0000_0000_0000) by (nonlinear_arith)
                requires
                    len * len <= v,
                    v < 0x1_0000_0000_0000_0000_0000_00,
            ;
            lemma_component_within_length(x as int, v as int, len as int);
            lemma_component_within_length(y as int, v as int, len as int);
            lemma_component_within_length(z as int, v as int, len as int);
        }
        Fixed3 {
            x: unit_component_exec(x, len as i128),
            y: unit_component_exec(y, len as i128),
            z: unit_component_exec(z, len as i128),
        }
    }

    /// Every coordinate lies within twice `VALUE_LIMIT`.
    pub open spec fn within_twice_limit(self) -> bool {
        &&& -2 * VALUE_LIMIT <= self.x <= 2 * VALUE_LIMIT
        &&& -2 * VALUE_LIMIT <= self.y <= 2 * VALUE_LIMIT
        &&& -2 * VALUE_LIMIT <= self.z <= 2 * VALUE_LIMIT
    }

    /// Every coordinate lies within `VALUE_LIMIT`.
    pub open spec fn bounded(self) -> bool {
        &&& -VALUE_LIMIT <= self.x <= VALUE_LIMIT
        &&& -VALUE_LIMIT <= self.y <= VALUE_LIMIT
        &&& -VALUE_LIMIT <= self.z <= VALUE_LIMIT
    }
}

/// A mesh vertex: its object-space position and normal, and what the transform
/// stage derives from them (the screen-space position with depth in `z`, and the
/// transformed normal).
#[derive(Clone, Copy, Debug, PartialEq, Eq, Structural)]
pub struct Vertex {
    pub position: Fixed3,
    pub normal: Fixed3,
    pub transformed_position: Fixed3,
    pub transformed_normal: Fixed3,
    pub color: Color,
}

impl Vertex {
    /// A vertex that has not been transformed yet: its derived fields repeat the source ones.
    pub fn new(position: Fixed3, normal: Fixed3) -> (v: Vertex)
        ensures
            v.position == position,
            v.normal == normal,
            v.transformed_position == position,
            v.transformed_normal == normal,
            v.color == (Color { r: 0, g: 0, b: 0 }),
    {
        Vertex {
            position,
            normal,
            transformed_position: position,
            transformed_normal: normal,
            color: Color::new(0, 0, 0),
        }
    }

    /// The values that the rasterizer reads fit its arithmetic: screen x and y
    /// within `COORD_LIMIT`, everything it interpolates within `VALUE_LIMIT`.
    pub open spec fn wf(&self) -> bool {
        &&& -COORD_LIMIT <= self.transformed_position.x <= COORD_LIMIT
        &&& -COORD_LIMIT <= self.transformed_position.y <= COORD_LIMIT
        &&& self.transformed_position.bounded()
        &&& self.transformed_normal.bounded()
        &&& self.position.bounded()
    }
}

/// What the rasterizer emits for one covered pixel: the pixel, the interpolated
/// depth, the interpolated normal scaled to unit length, the light intensity, the
/// interpolated object-space position, and the color that shading sets.
#[derive(Clone, Copy, Debug, PartialEq, Eq, Structural)]
pub struct Fragment {
    pub x: i32,
    pub y: i32,
    pub depth: i64,
    pub normal: Fixed3,
    pub intensity: i64,
    pub vertex_position: Fixed3,
    pub color: Color,
}

impl Fragment {
    /// A fragment not shaded yet (black).
    pub fn new(
        x: i32,
        y: i32,
        depth: i64,
        normal: Fixed3,
        intensity: i64,
        vertex_position: Fixed3,
    ) -> (f: Fragment)
        ensures
            f == (Fragment {
                x,
                y,
                depth,
                normal,
                intensity,
                vertex_position,
                color: Color { r: 0, g: 0, b: 0 },
            }),
    {
        Fragment { x, y, depth, normal, intensity, vertex_position, color: Color::new(0, 0, 0) }
    }
}

/// The squared length of a vector.
pub open spec fn length_squared(n: Fixed3) -> int {
    n.x * n.x + n.y * n.y + n.z * n.z
}

/// The length of a vector, rounded down.
pub open spec fn length(n: Fixed3) -> int {
    isqrt_spec(length_squared(n))
}

/// One component of a vector of length `len` scaled to unit length.
pub open spec fn unit_component(c: int, len: int) -> int {
    if len == 0 {
        0
    } else {
        (c * ONE) / len
    }
}

/// The vector scaled to unit length, component by component.
pub open spec fn normalized(n: Fixed3) -> Fixed3 {
    Fixed3 {
        x: unit_component(n.x as int, length(n)) as i64,
        y: unit_component(n.y as int, length(n)) as i64,
        z: unit_component(n.z as int, length(n)) as i64,
    }
}

proof fn lemma_component_within_length(c: int, v: int, len: int)
    requires
        is_isqrt(v, len),
        c * c <= v,
        len > 0,
    ensures
        -len <= c <= len,
        -(len * ONE) <= c * ONE <= len * ONE,
{
    if c > len || c < -len {
        assert((len + 1) * (len + 1) <= c * c) by (nonlinear_arith)
            requires
                c > len || c < -len,
                len >= 0,
        ;
    }
    assert(-(len * ONE) <= c * ONE <= len * ONE) by (nonlinear_arith)
        requires
            -len <= c <= len,
    ;
}

fn unit_component_exec(c: i128, len: i128) -> (r: i64)
    requires
        len > 0,
        -len <= c <= len,
        -(len * ONE) <= c * ONE <= len * ONE,
        len <= 0x1_0000_0000_0000,
    ensures
        r == unit_component(c as int, len as int),
        -ONE <= r <= ONE,
{
    let q = floor_div(c * (ONE as i128), len);
    proof {
        vstd::arithmetic::div_mod::lemma_div_is_ordered(c * ONE, len * ONE, len as int);
        vstd::arithmetic::div_mod::lemma_div_is_ordered(-(len * ONE), c * ONE, len as int);
        vstd::arithmetic::div_mod::lemma_div_multiples_vanish(ONE as int, len as int);
        vstd::arithmetic::div_mod::lemma_div_multiples_vanish(-ONE, len as int);
        assert(len * (-ONE) == -(len * ONE)) by (nonlinear_arith);
    }
    q as i64
}

} // verus!
