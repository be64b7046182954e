//! Helpers shared by the procedural shaders, on fixed-point scalars.
use vstd::prelude::*;
use crate::color::{scaled_channel, Color};
use crate::fixed::{clamp, floor_div, ONE};
use crate::geometry::{normalized, Fixed3, Fragment};

verus! {

/// Where `x` lies between the edges, as a fixed-point fraction clamped into `[0, ONE]`.
pub open spec fn ramp(e0: int, e1: int, x: int) -> int {
    clamp(((x - e0) * ONE) / (e1 - e0), 0, ONE as int)
}

/// The cubic Hermite curve `t * t * (3 - 2 * t)` on a fixed-point `t` in `[0, ONE]`.
pub open spec fn hermite(t: int) -> int {
    (t * t * (3 * ONE - 2 * t)) / (ONE * ONE)
}

/// Smooth interpolation between the edges `e0 < e1`, in fixed point.
pub open spec fn smoothstep_spec(e0: int, e1: int, x: int) -> int {
    hermite(ramp(e0, e1, x))
}

proof fn lemma_hermite_ends()
    ensures
        hermite(0) == 0,
        hermite(ONE as int) == ONE,
{
    let k = ONE as int;
    assert(k * k * (3 * k - 2 * k) == k * (k * k)) by (nonlinear_arith);
    vstd::arithmetic::div_mod::lemma_div_multiples_vanish(k, k * k);
}

proof fn lemma_hermite_monotonic(t1: int, t2: int)
    requires
        0 <= t1 <= t2 <= ONE,
    ensures
        0 <= hermite(t1) <= hermite(t2) <= ONE,
{
    let k = ONE as int;
    assert(t1 * t1 <= k * t1 && t2 * t2 <= k * t2 && t1 * t2 <= k * t1) by (nonlinear_arith)
        requires
            0 <= t1 <= t2 <= k,
    ;
    assert(2 * (t1 * t1 + t1 * t2 + t2 * t2) <= 3 * k * (t1 + t2)) by (nonlinear_arith)
        requires
            t1 * t1 <= k * t1,
            t2 * t2 <= k * t2,
            t1 * t2 <= k * t1,
            0 <= t1 <= t2,
    ;
    assert(t2 * t2 * (3 * k - 2 * t2) - t1 * t1 * (3 * k - 2 * t1) == (t2 - t1) * (3 * k * (t1
        + t2) - 2 * (t1 * t1 + t1 * t2 + t2 * t2))) by (nonlinear_arith);
    assert(0 <= (t2 - t1) * (3 * k * (t1 + t2) - 2 * (t1 * t1 + t1 * t2 + t2 * t2)))
        by (nonlinear_arith)
        requires
            t1 <= t2,
            2 * (t1 * t1 + t1 * t2 + t2 * t2) <= 3 * k * (t1 + t2),
    ;
    assert(0 <= t1 * t1 * (3 * k - 2 * t1)) by (nonlinear_arith)
        requires
            0 <= t1 <= k,
    ;
    lemma_hermite_below_cube(t2, k);
    vstd::arithmetic::div_mod::lemma_div_is_ordered(0, t1 * t1 * (3 * k - 2 * t1), k * k);
    vstd::arithmetic::div_mod::lemma_div_is_ordered(
        t1 * t1 * (3 * k - 2 * t1),
        t2 * t2 * (3 * k - 2 * t2),
        k * k,
    );
    vstd::arithmetic::div_mod::lemma_div_is_ordered(t2 * t2 * (3 * k - 2 * t2), k * k * k, k * k);
    vstd::arithmetic::div_mod::lemma_div_by_multiple(k, k * k);
    assert(k * k * k == k * (k * k)) by (nonlinear_arith);
    assert(0int / (k * k) == 0);
}

proof fn lemma_hermite_below_cube(t: int, k: int)
    requires
        0 <= t <= k,
    ensures
        t * t * (3 * k - 2 * t) <= k * k * k,
{
    // k^3 - t^2 (3k - 2t) = (k - t)^2 (k + 2t)
    assert(k * k * k - t * t * (3 * k - 2 * t) == (k - t) * (k - t) * (k + 2 * t))
        by (nonlinear_arith);
    assert(0 <= (k - t) * (k - t) * (k + 2 * t)) by (nonlinear_arith)
        requires
            0 <= t <= k,
    ;
}

proof fn lemma_ramp_monotonic(e0: int, e1: int, x1: int, x2: int)
    requires
        e0 < e1,
        x1 <= x2,
    ensures
        0 <= ramp(e0, e1, x1) <= ramp(e0, e1, x2) <= ONE,
{
    assert((x1 - e0) * ONE <= (x2 - e0) * ONE) by (nonlinear_arith)
        requires
            x1 <= x2,
    ;
    vstd::arithmetic::div_mod::lemma_div_is_ordered((x1 - e0) * ONE, (x2 - e0) * ONE, e1 - e0);
}

/// Smooth interpolation: `0` for `x <= e0`, `ONE` for `x >= e1`, and the cubic
/// Hermite curve of the clamped fixed-point fraction `(x - e0) / (e1 - e0)` between.
pub fn smoothstep(e0: i64, e1: i64, x: i64) -> (r: i64)
    requires
        e0 < e1,
    ensures
        r == smoothstep_spec(e0 as int, e1 as int, x as int),
        0 <= r <= ONE,
        x <= e0 ==> r == 0,
        x >= e1 ==> r == ONE,
{
    proof {
        assert(-0x1_0000_0000_0000_0000 * ONE <= (x - e0) * ONE <= 0x1_0000_0000_0000_0000 * ONE)
            by (nonlinear_arith)
            requires
                -0x1_0000_0000_0000_0000 <= x - e0 <= 0x1_0000_0000_0000_0000,
        ;
    }
    let q = floor_div(((x as i128) - (e0 as i128)) * (ONE as i128), (e1 as i128) - (e0 as i128));
    let t: i128 = if q < 0 {
        0
    } else if q > ONE as i128 {
        ONE as i128
    } else {
        q
    };
    proof {
        lemma_hermite_monotonic(0, t as int);
        lemma_hermite_monotonic(t as int, ONE as int);
        lemma_hermite_ends();
        assert(0 <= t * t <= ONE * ONE) by (nonlinear_arith)
            requires
                0 <= t <= ONE,
        ;
        assert(0 <= t * t * (3 * ONE - 2 * t) <= ONE * ONE * (3 * ONE)) by (nonlinear_arith)
            requires
                0 <= t * t <= ONE * ONE,
                0 <= t <= ONE,
        ;
        if x <= e0 {
            assert((x - e0) * ONE <= 0) by (nonlinear_arith)
                requires
                    x <= e0,
            ;
            vstd::arithmetic::div_mod::lemma_div_is_ordered((x - e0) * ONE, 0, e1 - e0);
        }
        if x >= e1 {
            assert((x - e0) * ONE >= (e1 - e0) * ONE) by (nonlinear_arith)
                requires
                    x >= e1,
            ;
            vstd::arithmetic::div_mod::lemma_div_is_ordered(
                (e1 - e0) * ONE,
                (x - e0) * ONE,
                e1 - e0,
            );
            vstd::arithmetic::div_mod::lemma_div_multiples_vanish(ONE as int, e1 - e0);
            assert((e1 - e0) * ONE == ONE * (e1 - e0)) by (nonlinear_arith);
        }
    }
    let h: i128 = t * t * (3 * (ONE as i128) - 2 * t) / ((ONE as i128) * (ONE as i128));
    h as i64
}

/// Smoothstep never decreases as `x` grows.
pub proof fn lemma_smoothstep_monotonic(e0: int, e1: int, x1: int, x2: int)
    requires
        e0 < e1,
        x1 <= x2,
    ensures
        smoothstep_spec(e0, e1, x1) <= smoothstep_spec(e0, e1, x2),
{
    lemma_ramp_monotonic(e0, e1, x1, x2);
    lemma_hermite_monotonic(ramp(e0, e1, x1), ramp(e0, e1, x2));
}

/// The lighting factor of a surface whose cosine to the light is `diffuse`:
/// an ambient fifth plus four fifths of the cosine floored at zero, in fixed point.
pub open spec fn lambert_factor(diffuse: int) -> int {
    (ONE + 4 * clamp(diffuse, 0, ONE as int)) / 5
}

/// The height of the single light above the origin, on the z axis, in fixed point.
pub const LIGHT_HEIGHT: i64 = 1310720;

/// The dot product of two vectors.
pub open spec fn dot(a: Fixed3, b: Fixed3) -> int {
    a.x * b.x + a.y * b.y + a.z * b.z
}

/// The fixed-point cosine between a fragment's normal and the direction from its
/// object-space position to the light at `(0, 0, LIGHT_HEIGHT)`, both scaled to
/// unit length first.
pub open spec fn lambert_cosine(f: Fragment) -> int {
    let p = f.vertex_position;
    let to_light = Fixed3 { x: (-p.x) as i64, y: (-p.y) as i64, z: (LIGHT_HEIGHT - p.z) as i64 };
    dot(normalized(f.normal), normalized(to_light)) / (ONE as int)
}

fn light_with(base: Color, diffuse: i64) -> (c: Color)
    ensures
        c.r == scaled_channel(base.r as int, lambert_factor(diffuse as int)),
        c.g == scaled_channel(base.g as int, lambert_factor(diffuse as int)),
        c.b == scaled_channel(base.b as int, lambert_factor(diffuse as int)),
{
    let d: i64 = if diffuse < 0 {
        0
    } else if diffuse > ONE {
        ONE
    } else {
        diffuse
    };
    base.scale((ONE + 4 * d) / 5)
}

/// `base` lit by the single light at `(0, 0, LIGHT_HEIGHT)`: an ambient fifth plus
/// four fifths of the cosine between the fragment's normal and the direction to the
/// light, floored at zero.
pub fn apply_lambert(base: Color, fragment: &Fragment) -> (c: Color)
    requires
        fragment.vertex_position.bounded(),
        fragment.normal.bounded(),
    ensures
        c.r == scaled_channel(base.r as int, lambert_factor(lambert_cosine(*fragment))),
        c.g == scaled_channel(base.g as int, lambert_factor(lambert_cosine(*fragment))),
        c.b == scaled_channel(base.b as int, lambert_factor(lambert_cosine(*fragment))),
{
    let p = fragment.vertex_position;
    let to_light = Fixed3::new(-p.x, -p.y, LIGHT_HEIGHT - p.z);
    let l = to_light.normalize();
    let n = fragment.normal.normalize();
    proof {
        assert(-ONE * ONE <= n.x * l.x <= ONE * ONE && -ONE * ONE <= n.y * l.y <= ONE * ONE && -ONE
            * ONE <= n.z * l.z <= ONE * ONE) by (nonlinear_arith)
            requires
                -ONE <= n.x <= ONE,
                -ONE <= n.y <= ONE,
                -ONE <= n.z <= ONE,
                -ONE <= l.x <= ONE,
                -ONE <= l.y <= ONE,
                -ONE <= l.z <= ONE,
        ;
    }
    let d: i64 = n.x * l.x + n.y * l.y + n.z * l.z;
    let cosine = floor_div(d as i128, ONE as i128);
    proof {
        vstd::arithmetic::div_mod::lemma_div_is_ordered(d as int, 3 * ONE * ONE, ONE as int);
        vstd::arithmetic::div_mod::lemma_div_is_ordered(-3 * ONE * ONE, d as int, ONE as int);
        vstd::arithmetic::div_mod::lemma_div_multiples_vanish(3 * ONE, ONE as int);
        vstd::arithmetic::div_mod::lemma_div_multiples_vanish(-3 * ONE, ONE as int);
    }
    light_with(base, cosine as i64)
}

} // verus!
