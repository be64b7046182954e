//! Triangle scan conversion: bounding-box scan, edge-function coverage test and
//! barycentric interpolation of the vertex attributes.
use vstd::prelude::*;
use crate::color::Color;
use crate::fixed::{floor_div, HALF, ONE};
use crate::geometry::{normalized, Fixed3, Fragment, Vertex, COORD_LIMIT, VALUE_LIMIT};

verus! {

/// Twice the signed area of the triangle `(a, b, p)`: which side of the directed
/// line `a -> b` the point `p` lies on.
pub open spec fn edge_fn(ax: int, ay: int, bx: int, by: int, px: int, py: int) -> int {
    (px - ax) * (by - ay) - (py - ay) * (bx - ax)
}

/// The fixed-point coordinate of the center of pixel column or row `i`.
pub open spec fn center(i: int) -> int {
    i * ONE + HALF
}

/// Twice the signed screen-space area of the triangle.
pub open spec fn area(a: Fixed3, b: Fixed3, c: Fixed3) -> int {
    edge_fn(a.x as int, a.y as int, b.x as int, b.y as int, c.x as int, c.y as int)
}

/// The unnormalized barycentric weight of `a` at the center of pixel `(x, y)`.
pub open spec fn weight1(a: Fixed3, b: Fixed3, c: Fixed3, x: int, y: int) -> int {
    edge_fn(b.x as int, b.y as int, c.x as int, c.y as int, center(x), center(y))
}

/// The unnormalized barycentric weight of `b` at the center of pixel `(x, y)`.
pub open spec fn weight2(a: Fixed3, b: Fixed3, c: Fixed3, x: int, y: int) -> int {
    edge_fn(c.x as int, c.y as int, a.x as int, a.y as int, center(x), center(y))
}

/// The unnormalized barycentric weight of `c` at the center of pixel `(x, y)`.
pub open spec fn weight3(a: Fixed3, b: Fixed3, c: Fixed3, x: int, y: int) -> int {
    edge_fn(a.x as int, a.y as int, b.x as int, b.y as int, center(x), center(y))
}

/// The center of pixel `(x, y)` lies inside the triangle or on its boundary: the
/// area is not zero and every barycentric weight is non-negative.
pub open spec fn covers(a: Fixed3, b: Fixed3, c: Fixed3, x: int, y: int) -> bool {
    let ar = area(a, b, c);
    let w1 = weight1(a, b, c, x, y);
    let w2 = weight2(a, b, c, x, y);
    let w3 = weight3(a, b, c, x, y);
    (ar > 0 && w1 >= 0 && w2 >= 0 && w3 >= 0) || (ar < 0 && w1 <= 0 && w2 <= 0 && w3 <= 0)
}

/// `(w1 * v1 + w2 * v2 + w3 * v3) / ar`, rounded down.
pub open spec fn interp(w1: int, w2: int, w3: int, ar: int, v1: int, v2: int, v3: int) -> int {
    if ar > 0 {
        (w1 * v1 + w2 * v2 + w3 * v3) / ar
    } else {
        (-(w1 * v1 + w2 * v2 + w3 * v3)) / (-ar)
    }
}

/// A vertex attribute interpolated at the center of pixel `(x, y)`.
pub open spec fn interp_at(
    a: Fixed3,
    b: Fixed3,
    c: Fixed3,
    x: int,
    y: int,
    v1: int,
    v2: int,
    v3: int,
) -> int {
    interp(
        weight1(a, b, c, x, y),
        weight2(a, b, c, x, y),
        weight3(a, b, c, x, y),
        area(a, b, c),
        v1,
        v2,
        v3,
    )
}

/// Three vectors interpolated component by component at the center of pixel `(x, y)`.
pub open spec fn interp3_at(
    a: Fixed3,
    b: Fixed3,
    c: Fixed3,
    x: int,
    y: int,
    p1: Fixed3,
    p2: Fixed3,
    p3: Fixed3,
) -> Fixed3 {
    Fixed3 {
        x: interp_at(a, b, c, x, y, p1.x as int, p2.x as int, p3.x as int) as i64,
        y: interp_at(a, b, c, x, y, p1.y as int, p2.y as int, p3.y as int) as i64,
        z: interp_at(a, b, c, x, y, p1.z as int, p2.z as int, p3.z as int) as i64,
    }
}

/// The light intensity on a unit normal: its cosine with the fixed light
/// direction `(0, 0, 1)`, floored at zero.
pub open spec fn light_intensity(n: Fixed3) -> int {
    if n.z > 0 {
        n.z as int
    } else {
        0
    }
}

/// The fragment that the triangle yields at pixel `(x, y)`.
pub open spec fn fragment_at(v1: Vertex, v2: Vertex, v3: Vertex, x: int, y: int) -> Fragment {
    let a = v1.transformed_position;
    let b = v2.transformed_position;
    let c = v3.transformed_position;
    let n = normalized(
        interp3_at(a, b, c, x, y, v1.transformed_normal, v2.transformed_normal, v3.transformed_normal),
    );
    Fragment {
        x: x as i32,
        y: y as i32,
        depth: interp_at(a, b, c, x, y, a.z as int, b.z as int, c.z as int) as i64,
        normal: n,
        intensity: light_intensity(n) as i64,
        vertex_position: interp3_at(a, b, c, x, y, v1.position, v2.position, v3.position),
        color: Color { r: 0, g: 0, b: 0 },
    }
}

pub open spec fn min3(p: int, q: int, r: int) -> int {
    if p <= q && p <= r {
        p
    } else if q <= r {
        q
    } else {
        r
    }
}

pub open spec fn max3(p: int, q: int, r: int) -> int {
    if p >= q && p >= r {
        p
    } else if q >= r {
        q
    } else {
        r
    }
}

/// The first pixel of the bounding box along one axis: the floor of the least coordinate.
pub open spec fn box_lo(p: int, q: int, r: int) -> int {
    min3(p, q, r) / (ONE as int)
}

/// The last pixel of the bounding box along one axis: the ceiling of the greatest coordinate.
pub open spec fn box_hi(p: int, q: int, r: int) -> int {
    (max3(p, q, r) + ONE - 1) / (ONE as int)
}

/// The fragments of row `y` for the pixels `lo..=hi`, left to right.
pub open spec fn row(v1: Vertex, v2: Vertex, v3: Vertex, y: int, lo: int, hi: int) -> Seq<Fragment>
    decreases hi - lo + 1,
{
    if hi < lo {
        Seq::empty()
    } else {
        row(v1, v2, v3, y, lo, hi - 1) + if covers(
            v1.transformed_position,
            v2.transformed_position,
            v3.transformed_position,
            hi,
            y,
        ) {
            seq![fragment_at(v1, v2, v3, hi, y)]
        } else {
            Seq::empty()
        }
    }
}

/// The fragments of the rows `lo..=hi` of the bounding box, top to bottom.
pub open spec fn rows(v1: Vertex, v2: Vertex, v3: Vertex, lo: int, hi: int) -> Seq<Fragment>
    decreases hi - lo + 1,
{
    let a = v1.transformed_position;
    let b = v2.transformed_position;
    let c = v3.transformed_position;
    if hi < lo {
        Seq::empty()
    } else {
        rows(v1, v2, v3, lo, hi - 1) + row(
            v1,
            v2,
            v3,
            hi,
            box_lo(a.x as int, b.x as int, c.x as int),
            box_hi(a.x as int, b.x as int, c.x as int),
        )
    }
}

/// Twice-areas below this magnitude (one millionth of a square pixel, in fixed-point
/// area units of `ONE * ONE`) mark a degenerate triangle, edge-on or collapsed.
pub const DEGENERATE_AREA: i64 = 4295;

/// The triangle is too thin to rasterize: its twice-area is below `DEGENERATE_AREA`
/// in magnitude.
pub open spec fn degenerate(a: Fixed3, b: Fixed3, c: Fixed3) -> bool {
    -DEGENERATE_AREA < area(a, b, c) < DEGENERATE_AREA
}

/// Everything the triangle yields: nothing when it is degenerate, else one fragment
/// for each pixel of its bounding box whose center it covers, in row-major order.
pub open spec fn raster_spec(v1: Vertex, v2: Vertex, v3: Vertex) -> Seq<Fragment> {
    let a = v1.transformed_position;
    let b = v2.transformed_position;
    let c = v3.transformed_position;
    if degenerate(a, b, c) {
        Seq::empty()
    } else {
        rows(v1, v2, v3, box_lo(a.y as int, b.y as int, c.y as int), box_hi(a.y as int, b.y as int, c.y as int))
    }
}

/// Bound on the coordinates that the edge function is evaluated on.
spec fn edge_input(v: int) -> bool {
    -0x1_0000_0000 <= v <= 0x1_0000_0000
}

/// Bound on every value of the edge function evaluated here.
spec fn edge_output(v: int) -> bool {
    -0x8_0000_0000_0000_0000 <= v <= 0x8_0000_0000_0000_0000
}

proof fn lemma_mul_bound(p: int, q: int)
    requires
        -0x2_0000_0000 <= p <= 0x2_0000_0000,
        -0x2_0000_0000 <= q <= 0x2_0000_0000,
    ensures
        -0x4_0000_0000_0000_0000 <= p * q <= 0x4_0000_0000_0000_0000,
{
    assert(-0x4_0000_0000_0000_0000 <= p * q <= 0x4_0000_0000_0000_0000) by (nonlinear_arith)
        requires
            -0x2_0000_0000 <= p <= 0x2_0000_0000,
            -0x2_0000_0000 <= q <= 0x2_0000_0000,
    ;
}

fn edge(ax: i128, ay: i128, bx: i128, by: i128, px: i128, py: i128) -> (e: i128)
    requires
        edge_input(ax as int),
        edge_input(ay as int),
        edge_input(bx as int),
        edge_input(by as int),
        edge_input(px as int),
        edge_input(py as int),
    ensures
        e == edge_fn(ax as int, ay as int, bx as int, by as int, px as int, py as int),
        edge_output(e as int),
{
    proof {
        lemma_mul_bound(px - ax, by - ay);
        lemma_mul_bound(py - ay, bx - ax);
    }
    (px - ax) * (by - ay) - (py - ay) * (bx - ax)
}

proof fn lemma_edge_expand(ax: int, ay: int, bx: int, by: int, px: int, py: int)
    ensures
        edge_fn(ax, ay, bx, by, px, py) == px * by - px * ay - ax * by - py * bx + py * ax + ay * bx,
{
    assert((px - ax) * (by - ay) == px * by - px * ay - ax * by + ax * ay) by (nonlinear_arith);
    assert((py - ay) * (bx - ax) == py * bx - py * ax - ay * bx + ay * ax) by (nonlinear_arith);
    assert(ax * ay == ay * ax) by (nonlinear_arith);
}

/// The barycentric weights always add up to the area.
proof fn lemma_weights_sum(a: Fixed3, b: Fixed3, c: Fixed3, x: int, y: int)
    ensures
        weight1(a, b, c, x, y) + weight2(a, b, c, x, y) + weight3(a, b, c, x, y) == area(a, b, c),
{
    let (ax, ay, bx, by, cx, cy) = (a.x as int, a.y as int, b.x as int, b.y as int, c.x as int, c.y as int);
    let (px, py) = (center(x), center(y));
    lemma_edge_expand(bx, by, cx, cy, px, py);
    lemma_edge_expand(cx, cy, ax, ay, px, py);
    lemma_edge_expand(ax, ay, bx, by, px, py);
    lemma_edge_expand(ax, ay, bx, by, cx, cy);
}

/// A weighted mean with non-negative weights lies within the bound of the values.
proof fn lemma_mean_bound(w1: int, w2: int, w3: int, v1: int, v2: int, v3: int)
    requires
        w1 >= 0,
        w2 >= 0,
        w3 >= 0,
        w1 + w2 + w3 > 0,
        -VALUE_LIMIT <= v1 <= VALUE_LIMIT,
        -VALUE_LIMIT <= v2 <= VALUE_LIMIT,
        -VALUE_LIMIT <= v3 <= VALUE_LIMIT,
    ensures
        -VALUE_LIMIT <= (w1 * v1 + w2 * v2 + w3 * v3) / (w1 + w2 + w3) <= VALUE_LIMIT,
{
    let l = VALUE_LIMIT as int;
    let s = w1 + w2 + w3;
    let n = w1 * v1 + w2 * v2 + w3 * v3;
    assert(-(s * l) <= n <= s * l) by (nonlinear_arith)
        requires
            w1 >= 0,
            w2 >= 0,
            w3 >= 0,
            -l <= v1 <= l,
            -l <= v2 <= l,
            -l <= v3 <= l,
            s == w1 + w2 + w3,
            n == w1 * v1 + w2 * v2 + w3 * v3,
    ;
    vstd::arithmetic::div_mod::lemma_div_is_ordered(n, s * l, s);
    vstd::arithmetic::div_mod::lemma_div_is_ordered(-(s * l), n, s);
    vstd::arithmetic::div_mod::lemma_div_multiples_vanish(l, s);
    vstd::arithmetic::div_mod::lemma_div_multiples_vanish(-l, s);
    assert(s * (-l) == -(s * l)) by (nonlinear_arith);
}

/// Interpolation at a covered pixel, with weights of the area's sign.
fn interp_exec(w1: i128, w2: i128, w3: i128, ar: i128, v1: i64, v2: i64, v3: i64) -> (r: i64)
    requires
        edge_output(w1 as int),
        edge_output(w2 as int),
        edge_output(w3 as int),
        w1 + w2 + w3 == ar,
        (ar > 0 && w1 >= 0 && w2 >= 0 && w3 >= 0) || (ar < 0 && w1 <= 0 && w2 <= 0 && w3 <= 0),
        -VALUE_LIMIT <= v1 <= VALUE_LIMIT,
        -VALUE_LIMIT <= v2 <= VALUE_LIMIT,
        -VALUE_LIMIT <= v3 <= VALUE_LIMIT,
    ensures
        r == interp(w1 as int, w2 as int, w3 as int, ar as int, v1 as int, v2 as int, v3 as int),
        -VALUE_LIMIT <= r <= VALUE_LIMIT,
{
    proof {
        let l = VALUE_LIMIT as int;
        assert(-0x8_0000_0000_0000_0000 * l <= w1 * v1 <= 0x8_0000_0000_0000_0000 * l)
            by (nonlinear_arith)
            requires
                edge_output(w1 as int),
                -l <= v1 <= l,
                l > 0,
        ;
        assert(-0x8_0000_0000_0000_0000 * l <= w2 * v2 <= 0x8_0000_0000_0000_0000 * l)
            by (nonlinear_arith)
            requires
                edge_output(w2 as int),
                -l <= v2 <= l,
                l > 0,
        ;
        assert(-0x8_0000_0000_0000_0000 * l <= w3 * v3 <= 0x8_0000_0000_0000_0000 * l)
            by (nonlinear_arith)
            requires
                edge_output(w3 as int),
                -l <= v3 <= l,
                l > 0,
        ;
        if ar > 0 {
            lemma_mean_bound(w1 as int, w2 as int, w3 as int, v1 as int, v2 as int, v3 as int);
        } else {
            lemma_mean_bound(-w1, -w2, -w3, v1 as int, v2 as int, v3 as int);
            assert((-w1) * v1 + (-w2) * v2 + (-w3) * v3 == -(w1 * v1 + w2 * v2 + w3 * v3))
                by (nonlinear_arith);
        }
    }
    let n: i128 = w1 * (v1 as i128) + w2 * (v2 as i128) + w3 * (v3 as i128);
    let q: i128 = if ar > 0 {
        floor_div(n, ar)
    } else {
        floor_div(-n, -ar)
    };
    q as i64
}


fn min3_exec(p: i64, q: i64, r: i64) -> (m: i64)
    ensures
        m == min3(p as int, q as int, r as int),
{
    if p <= q && p <= r {
        p
    } else if q <= r {
        q
    } else {
        r
    }
}

fn max3_exec(p: i64, q: i64, r: i64) -> (m: i64)
    ensures
        m == max3(p as int, q as int, r as int),
{
    if p >= q && p >= r {
        p
    } else if q >= r {
        q
    } else {
        r
    }
}

/// Bound on the pixel rows and columns that a bounding box can reach.
spec fn pixel_in_reach(i: int) -> bool {
    -0x8000 <= i <= 0x8001
}

proof fn lemma_box_in_reach(p: int, q: int, r: int)
    requires
        -COORD_LIMIT <= p <= COORD_LIMIT,
        -COORD_LIMIT <= q <= COORD_LIMIT,
        -COORD_LIMIT <= r <= COORD_LIMIT,
    ensures
        pixel_in_reach(box_lo(p, q, r)),
        pixel_in_reach(box_hi(p, q, r)),
{
    let k = ONE as int;
    let lo = min3(p, q, r);
    let hi = max3(p, q, r);
    vstd::arithmetic::div_mod::lemma_div_is_ordered(-0x8000 * k, lo, k);
    vstd::arithmetic::div_mod::lemma_div_is_ordered(lo, 0x8000 * k, k);
    vstd::arithmetic::div_mod::lemma_div_is_ordered(-0x8000 * k, hi + k - 1, k);
    vstd::arithmetic::div_mod::lemma_div_is_ordered(hi + k - 1, 0x8001 * k, k);
    vstd::arithmetic::div_mod::lemma_div_multiples_vanish(-0x8000, k);
    vstd::arithmetic::div_mod::lemma_div_multiples_vanish(0x8000, k);
    vstd::arithmetic::div_mod::lemma_div_multiples_vanish(0x8001, k);
}

/// The bounding box of three coordinates within `COORD_LIMIT`, in pixels.
fn pixel_box(p: i64, q: i64, r: i64) -> (bx: (i128, i128))
    requires
        -COORD_LIMIT <= p <= COORD_LIMIT,
        -COORD_LIMIT <= q <= COORD_LIMIT,
        -COORD_LIMIT <= r <= COORD_LIMIT,
    ensures
        bx.0 == box_lo(p as int, q as int, r as int),
        bx.1 == box_hi(p as int, q as int, r as int),
        pixel_in_reach(bx.0 as int),
        pixel_in_reach(bx.1 as int),
{
    let lo = min3_exec(p, q, r);
    let hi = max3_exec(p, q, r);
    let l = floor_div(lo as i128, ONE as i128);
    let h = floor_div(hi as i128 + (ONE - 1) as i128, ONE as i128);
    proof {
        lemma_box_in_reach(p as int, q as int, r as int);
    }
    (l, h)
}

/// The fragments of a triangle given by three transformed vertices: nothing when
/// it is degenerate (twice-area below `DEGENERATE_AREA` in magnitude); otherwise,
/// for each pixel of the bounding box of its screen positions (floor of the least
/// to ceiling of the greatest coordinate), taken row by row, one fragment whenever
/// every barycentric weight at the pixel center is non-negative, carrying the
/// depth, normal and object-space position interpolated with those weights, the
/// normal then scaled to unit length, and the light intensity of that normal.
pub fn triangle(v1: &Vertex, v2: &Vertex, v3: &Vertex) -> (fragments: Vec<Fragment>)
    requires
        v1.wf(),
        v2.wf(),
        v3.wf(),
    ensures
        fragments@ == raster_spec(*v1, *v2, *v3),
        degenerate(v1.transformed_position, v2.transformed_position, v3.transformed_position)
            ==> fragments@.len() == 0,
{
    let a = v1.transformed_position;
    let b = v2.transformed_position;
    let c = v3.transformed_position;
    let n1 = v1.transformed_normal;
    let n2 = v2.transformed_normal;
    let n3 = v3.transformed_normal;
    let p1 = v1.position;
    let p2 = v2.position;
    let p3 = v3.position;
    let mut fragments: Vec<Fragment> = Vec::new();
    let ar = edge(a.x as i128, a.y as i128, b.x as i128, b.y as i128, c.x as i128, c.y as i128);
    if -(DEGENERATE_AREA as i128) < ar && ar < DEGENERATE_AREA as i128 {
        return fragments;
    }
    let (min_x, max_x) = pixel_box(a.x, b.x, c.x);
    let (min_y, max_y) = pixel_box(a.y, b.y, c.y);
    let one: i128 = ONE as i128;
    let half: i128 = HALF as i128;
    let mut y: i128 = min_y;
    while y <= max_y
        invariant
            min_y <= y <= max_y + 1,
            pixel_in_reach(min_x as int),
            pixel_in_reach(max_x as int),
            pixel_in_reach(min_y as int),
            pixel_in_reach(max_y as int),
            one == ONE,
            half == HALF,
            v1.wf(),
            v2.wf(),
            v3.wf(),
            ar == area(a, b, c),
            ar != 0,
            a == v1.transformed_position,
            b == v2.transformed_position,
            c == v3.transformed_position,
            n1 == v1.transformed_normal,
            n2 == v2.transformed_normal,
            n3 == v3.transformed_normal,
            p1 == v1.position,
            p2 == v2.position,
            p3 == v3.position,
            min_x == box_lo(a.x as int, b.x as int, c.x as int),
            max_x == box_hi(a.x as int, b.x as int, c.x as int),
            fragments@ == rows(*v1, *v2, *v3, min_y as int, y - 1),
        decreases max_y - y + 1,
    {
        let mut x: i128 = min_x;
        while x <= max_x
            invariant
                min_x <= x <= max_x + 1,
                min_y <= y <= max_y,
                pixel_in_reach(min_x as int),
                pixel_in_reach(max_x as int),
                pixel_in_reach(min_y as int),
                pixel_in_reach(max_y as int),
                one == ONE,
                half == HALF,
                v1.wf(),
                v2.wf(),
                v3.wf(),
                ar == area(a, b, c),
                ar != 0,
                a == v1.transformed_position,
                b == v2.transformed_position,
                c == v3.transformed_position,
                n1 == v1.transformed_normal,
                n2 == v2.transformed_normal,
                n3 == v3.transformed_normal,
                p1 == v1.position,
                p2 == v2.position,
                p3 == v3.position,
                min_x == box_lo(a.x as int, b.x as int, c.x as int),
                max_x == box_hi(a.x as int, b.x as int, c.x as int),
                fragments@ == rows(*v1, *v2, *v3, min_y as int, y - 1) + row(
                    *v1,
                    *v2,
                    *v3,
                    y as int,
                    min_x as int,
                    x - 1,
                ),
            decreases max_x - x + 1,
        {
            let px: i128 = x * one + half;
            let py: i128 = y * one + half;
            let w1 = edge(b.x as i128, b.y as i128, c.x as i128, c.y as i128, px, py);
            let w2 = edge(c.x as i128, c.y as i128, a.x as i128, a.y as i128, px, py);
            let w3 = edge(a.x as i128, a.y as i128, b.x as i128, b.y as i128, px, py);
            if (ar > 0 && w1 >= 0 && w2 >= 0 && w3 >= 0) || (ar < 0 && w1 <= 0 && w2 <= 0 && w3
                <= 0) {
                proof {
                    lemma_weights_sum(a, b, c, x as int, y as int);
                }
                let depth = interp_exec(w1, w2, w3, ar, a.z, b.z, c.z);
                let raw_normal = Fixed3::new(
                    interp_exec(w1, w2, w3, ar, n1.x, n2.x, n3.x),
                    interp_exec(w1, w2, w3, ar, n1.y, n2.y, n3.y),
                    interp_exec(w1, w2, w3, ar, n1.z, n2.z, n3.z),
                );
                let normal = raw_normal.normalize();
                let intensity: i64 = if normal.z > 0 {
                    normal.z
                } else {
                    0
                };
                let position = Fixed3::new(
                    interp_exec(w1, w2, w3, ar, p1.x, p2.x, p3.x),
                    interp_exec(w1, w2, w3, ar, p1.y, p2.y, p3.y),
                    interp_exec(w1, w2, w3, ar, p1.z, p2.z, p3.z),
                );
                let f = Fragment::new(x as i32, y as i32, depth, normal, intensity, position);
                fragments.push(f);
                proof {
                    assert(f == fragment_at(*v1, *v2, *v3, x as int, y as int));
                    assert(fragments@ =~= rows(*v1, *v2, *v3, min_y as int, y - 1) + row(
                        *v1,
                        *v2,
                        *v3,
                        y as int,
                        min_x as int,
                        x as int,
                    ));
                }
            } else {
                proof {
                    assert(fragments@ =~= rows(*v1, *v2, *v3, min_y as int, y - 1) + row(
                        *v1,
                        *v2,
                        *v3,
                        y as int,
                        min_x as int,
                        x as int,
                    ));
                }
            }
            x = x + 1;
        }
        y = y + 1;
    }
    fragments
}


proof fn lemma_interp_at_corner(w1: int, w2: int, w3: int, ar: int, v1: int, v2: int, v3: int)
    requires
        ar != 0,
        w1 == ar,
        w2 == 0,
        w3 == 0,
    ensures
        interp(w1, w2, w3, ar, v1, v2, v3) == v1,
{
    assert(w1 * v1 + w2 * v2 + w3 * v3 == ar * v1) by (nonlinear_arith)
        requires
            w1 == ar,
            w2 == 0,
            w3 == 0,
    ;
    if ar > 0 {
        vstd::arithmetic::div_mod::lemma_div_multiples_vanish(v1, ar);
    } else {
        assert(-(ar * v1) == (-ar) * v1) by (nonlinear_arith);
        vstd::arithmetic::div_mod::lemma_div_multiples_vanish(v1, -ar);
    }
}

/// At a pixel whose center is exactly one of the vertices' screen positions, a
/// triangle that is not degenerate covers the pixel and yields its fragment exactly
/// once, and the depth it interpolates there is that vertex's own depth.
pub proof fn lemma_depth_exact_at_vertices(v1: Vertex, v2: Vertex, v3: Vertex, x: int, y: int)
    requires
        v1.wf(),
        v2.wf(),
        v3.wf(),
        !degenerate(v1.transformed_position, v2.transformed_position, v3.transformed_position),
    ensures
        forall|j: int, k: int|
            0 <= j < raster_spec(v1, v2, v3).len() && 0 <= k < raster_spec(v1, v2, v3).len()
                && #[trigger] raster_spec(v1, v2, v3)[j].x == x && raster_spec(v1, v2, v3)[j].y == y
                && #[trigger] raster_spec(v1, v2, v3)[k].x == x && raster_spec(v1, v2, v3)[k].y == y
                ==> j == k,
        v1.transformed_position.x == center(x) && v1.transformed_position.y == center(y) ==> covers(
            v1.transformed_position,
            v2.transformed_position,
            v3.transformed_position,
            x,
            y,
        ) && fragment_at(v1, v2, v3, x, y).depth == v1.transformed_position.z && raster_spec(
            v1,
            v2,
            v3,
        ).contains(fragment_at(v1, v2, v3, x, y)),
        v2.transformed_position.x == center(x) && v2.transformed_position.y == center(y) ==> covers(
            v1.transformed_position,
            v2.transformed_position,
            v3.transformed_position,
            x,
            y,
        ) && fragment_at(v1, v2, v3, x, y).depth == v2.transformed_position.z && raster_spec(
            v1,
            v2,
            v3,
        ).contains(fragment_at(v1, v2, v3, x, y)),
        v3.transformed_position.x == center(x) && v3.transformed_position.y == center(y) ==> covers(
            v1.transformed_position,
            v2.transformed_position,
            v3.transformed_position,
            x,
            y,
        ) && fragment_at(v1, v2, v3, x, y).depth == v3.transformed_position.z && raster_spec(
            v1,
            v2,
            v3,
        ).contains(fragment_at(v1, v2, v3, x, y)),
{
    let a = v1.transformed_position;
    let b = v2.transformed_position;
    let c = v3.transformed_position;
    let s = raster_spec(v1, v2, v3);
    lemma_one_fragment_per_pixel(v1, v2, v3);
    assert forall|j: int, k: int|
        0 <= j < s.len() && 0 <= k < s.len() && #[trigger] s[j].x == x && s[j].y == y
            && #[trigger] s[k].x == x && s[k].y == y implies j == k by {
        if j < k {
            assert(pixel_before(s[j], s[k]));
        } else if k < j {
            assert(pixel_before(s[k], s[j]));
        }
    }
    let (ax, ay, bx, by, cx, cy) = (a.x as int, a.y as int, b.x as int, b.y as int, c.x as int, c.y as int);
    let (px, py) = (center(x), center(y));
    let ar = area(a, b, c);
    let w1 = weight1(a, b, c, x, y);
    let w2 = weight2(a, b, c, x, y);
    let w3 = weight3(a, b, c, x, y);
    lemma_edge_expand(bx, by, cx, cy, px, py);
    lemma_edge_expand(cx, cy, ax, ay, px, py);
    lemma_edge_expand(ax, ay, bx, by, px, py);
    lemma_edge_expand(ax, ay, bx, by, cx, cy);
    assert(px * ay == ay * px && py * ax == ax * py && px * by == by * px && py * bx == bx * py
        && px * cy == cy * px && py * cx == cx * py && ax * by == by * ax && ay * bx == bx * ay
        && bx * cy == cy * bx && by * cx == cx * by && ax * cy == cy * ax && ay * cx == cx * ay)
        by (nonlinear_arith);
    if ax == px && ay == py {
        assert(w1 == ar && w2 == 0 && w3 == 0);
        lemma_interp_at_corner(w1, w2, w3, ar, a.z as int, b.z as int, c.z as int);
        lemma_covered_pixel_yields_fragment(v1, v2, v3, x, y);
    }
    if bx == px && by == py {
        assert(w2 == ar && w1 == 0 && w3 == 0);
        lemma_interp_at_corner(w2, w3, w1, ar, b.z as int, c.z as int, a.z as int);
        lemma_covered_pixel_yields_fragment(v1, v2, v3, x, y);
        assert(interp(w1, w2, w3, ar, a.z as int, b.z as int, c.z as int) == interp(
            w2,
            w3,
            w1,
            ar,
            b.z as int,
            c.z as int,
            a.z as int,
        ));
    }
    if cx == px && cy == py {
        assert(w3 == ar && w1 == 0 && w2 == 0);
        lemma_interp_at_corner(w3, w1, w2, ar, c.z as int, a.z as int, b.z as int);
        lemma_covered_pixel_yields_fragment(v1, v2, v3, x, y);
        assert(interp(w1, w2, w3, ar, a.z as int, b.z as int, c.z as int) == interp(
            w3,
            w1,
            w2,
            ar,
            c.z as int,
            a.z as int,
            b.z as int,
        ));
    }
}


/// With weights from the edge function, the weighted sum of positions relative to
/// the point vanishes: `w1 (a - p) + w2 (b - p) + w3 (c - p) == 0`, on each axis.
proof fn lemma_weighted_offsets_vanish(ax: int, ay: int, bx: int, by: int, cx: int, cy: int, px: int, py: int)
    ensures
        edge_fn(bx, by, cx, cy, px, py) * (ax - px) + edge_fn(cx, cy, ax, ay, px, py) * (bx - px)
            + edge_fn(ax, ay, bx, by, px, py) * (cx - px) == 0,
        edge_fn(bx, by, cx, cy, px, py) * (ay - py) + edge_fn(cx, cy, ax, ay, px, py) * (by - py)
            + edge_fn(ax, ay, bx, by, px, py) * (cy - py) == 0,
{
    let (ux, uy, vx, vy, sx, sy) = (ax - px, ay - py, bx - px, by - py, cx - px, cy - py);
    assert(edge_fn(bx, by, cx, cy, px, py) == vy * sx - vx * sy) by (nonlinear_arith)
        requires
            vx == bx - px,
            vy == by - py,
            sx == cx - px,
            sy == cy - py,
    ;
    assert(edge_fn(cx, cy, ax, ay, px, py) == sy * ux - sx * uy) by (nonlinear_arith)
        requires
            ux == ax - px,
            uy == ay - py,
            sx == cx - px,
            sy == cy - py,
    ;
    assert(edge_fn(ax, ay, bx, by, px, py) == uy * vx - ux * vy) by (nonlinear_arith)
        requires
            ux == ax - px,
            uy == ay - py,
            vx == bx - px,
            vy == by - py,
    ;
    assert((vy * sx - vx * sy) * ux == ux * vy * sx - ux * vx * sy) by (nonlinear_arith);
    assert((sy * ux - sx * uy) * vx == ux * vx * sy - uy * vx * sx) by (nonlinear_arith);
    assert((uy * vx - ux * vy) * sx == uy * vx * sx - ux * vy * sx) by (nonlinear_arith);
    assert((vy * sx - vx * sy) * uy == uy * vy * sx - uy * vx * sy) by (nonlinear_arith);
    assert((sy * ux - sx * uy) * vy == ux * vy * sy - uy * vy * sx) by (nonlinear_arith);
    assert((uy * vx - ux * vy) * sy == uy * vx * sy - ux * vy * sy) by (nonlinear_arith);
}

/// Non-negative weights with a positive sum, against offsets that are all positive,
/// cannot give a vanishing sum.
proof fn lemma_positive_combination(w1: int, w2: int, w3: int, d1: int, d2: int, d3: int)
    requires
        w1 >= 0,
        w2 >= 0,
        w3 >= 0,
        w1 + w2 + w3 > 0,
        d1 > 0,
        d2 > 0,
        d3 > 0,
    ensures
        w1 * d1 + w2 * d2 + w3 * d3 > 0,
{
    assert(w1 * d1 + w2 * d2 + w3 * d3 > 0) by (nonlinear_arith)
        requires
            w1 >= 0,
            w2 >= 0,
            w3 >= 0,
            w1 + w2 + w3 > 0,
            d1 > 0,
            d2 > 0,
            d3 > 0,
    ;
}

/// A covered pixel center lies within the range of the vertices on one axis.
proof fn lemma_center_within(w1: int, w2: int, w3: int, ar: int, q1: int, q2: int, q3: int, p: int)
    requires
        w1 + w2 + w3 == ar,
        (ar > 0 && w1 >= 0 && w2 >= 0 && w3 >= 0) || (ar < 0 && w1 <= 0 && w2 <= 0 && w3 <= 0),
        w1 * (q1 - p) + w2 * (q2 - p) + w3 * (q3 - p) == 0,
    ensures
        min3(q1, q2, q3) <= p <= max3(q1, q2, q3),
{
    let (n1, n2, n3) = if ar > 0 {
        (w1, w2, w3)
    } else {
        (-w1, -w2, -w3)
    };
    assert(n1 * (q1 - p) + n2 * (q2 - p) + n3 * (q3 - p) == 0) by (nonlinear_arith)
        requires
            w1 * (q1 - p) + w2 * (q2 - p) + w3 * (q3 - p) == 0,
            (n1 == w1 && n2 == w2 && n3 == w3) || (n1 == -w1 && n2 == -w2 && n3 == -w3),
    ;
    if p < min3(q1, q2, q3) {
        lemma_positive_combination(n1, n2, n3, q1 - p, q2 - p, q3 - p);
    }
    if p > max3(q1, q2, q3) {
        lemma_positive_combination(n1, n2, n3, p - q1, p - q2, p - q3);
        assert(n1 * (p - q1) + n2 * (p - q2) + n3 * (p - q3) == -(n1 * (q1 - p) + n2 * (q2 - p) + n3
            * (q3 - p))) by (nonlinear_arith);
    }
}

/// A pixel coordinate whose center lies within `[lo, hi]` lies within the pixel
/// range of the bounding box on that axis.
proof fn lemma_center_in_box(i: int, lo: int, hi: int)
    requires
        lo <= center(i) <= hi,
    ensures
        lo / (ONE as int) <= i <= (hi + ONE - 1) / (ONE as int),
{
    let k = ONE as int;
    vstd::arithmetic::div_mod::lemma_fundamental_div_mod(lo, k);
    vstd::arithmetic::div_mod::lemma_mod_bound(lo, k);
    vstd::arithmetic::div_mod::lemma_fundamental_div_mod(hi + k - 1, k);
    vstd::arithmetic::div_mod::lemma_mod_bound(hi + k - 1, k);
    let q = lo / k;
    let h = (hi + k - 1) / k;
    if i < q {
        assert(i * k + k <= q * k) by (nonlinear_arith)
            requires
                i < q,
                k > 0,
        ;
    }
    if i > h {
        assert(h * k + k <= i * k) by (nonlinear_arith)
            requires
                i > h,
                k > 0,
        ;
    }
}

/// Every pixel whose center a triangle covers lies in the triangle's bounding box,
/// so the scan of the box yields a fragment for every covered pixel.
pub proof fn lemma_covered_pixels_in_box(a: Fixed3, b: Fixed3, c: Fixed3, x: int, y: int)
    requires
        covers(a, b, c, x, y),
    ensures
        box_lo(a.x as int, b.x as int, c.x as int) <= x <= box_hi(a.x as int, b.x as int, c.x as int),
        box_lo(a.y as int, b.y as int, c.y as int) <= y <= box_hi(a.y as int, b.y as int, c.y as int),
{
    let (ax, ay, bx, by, cx, cy) = (a.x as int, a.y as int, b.x as int, b.y as int, c.x as int, c.y as int);
    lemma_weights_sum(a, b, c, x, y);
    lemma_weighted_offsets_vanish(ax, ay, bx, by, cx, cy, center(x), center(y));
    let (w1, w2, w3) = (weight1(a, b, c, x, y), weight2(a, b, c, x, y), weight3(a, b, c, x, y));
    lemma_center_within(w1, w2, w3, area(a, b, c), ax, bx, cx, center(x));
    lemma_center_within(w1, w2, w3, area(a, b, c), ay, by, cy, center(y));
    lemma_center_in_box(x, min3(ax, bx, cx), max3(ax, bx, cx));
    lemma_center_in_box(y, min3(ay, by, cy), max3(ay, by, cy));
}


proof fn lemma_row_contains(v1: Vertex, v2: Vertex, v3: Vertex, y: int, lo: int, hi: int, x: int)
    requires
        lo <= x <= hi,
        covers(v1.transformed_position, v2.transformed_position, v3.transformed_position, x, y),
    ensures
        row(v1, v2, v3, y, lo, hi).contains(fragment_at(v1, v2, v3, x, y)),
    decreases hi - lo,
{
    let f = fragment_at(v1, v2, v3, x, y);
    if x == hi {
        let s = row(v1, v2, v3, y, lo, hi);
        let prefix = row(v1, v2, v3, y, lo, hi - 1);
        assert(s[prefix.len() as int] == f);
    } else {
        lemma_row_contains(v1, v2, v3, y, lo, hi - 1, x);
        let prefix = row(v1, v2, v3, y, lo, hi - 1);
        let i = choose|i: int| 0 <= i < prefix.len() && prefix[i] == f;
        assert(row(v1, v2, v3, y, lo, hi)[i] == f);
    }
}

proof fn lemma_rows_contain(v1: Vertex, v2: Vertex, v3: Vertex, lo: int, hi: int, x: int, y: int)
    requires
        lo <= y <= hi,
        covers(v1.transformed_position, v2.transformed_position, v3.transformed_position, x, y),
        box_lo(
            v1.transformed_position.x as int,
            v2.transformed_position.x as int,
            v3.transformed_position.x as int,
        ) <= x <= box_hi(
            v1.transformed_position.x as int,
            v2.transformed_position.x as int,
            v3.transformed_position.x as int,
        ),
    ensures
        rows(v1, v2, v3, lo, hi).contains(fragment_at(v1, v2, v3, x, y)),
    decreases hi - lo,
{
    let f = fragment_at(v1, v2, v3, x, y);
    let a = v1.transformed_position;
    let b = v2.transformed_position;
    let c = v3.transformed_position;
    let prefix = rows(v1, v2, v3, lo, hi - 1);
    if y == hi {
        let r = row(v1, v2, v3, hi, box_lo(a.x as int, b.x as int, c.x as int), box_hi(a.x as int, b.x as int, c.x as int));
        lemma_row_contains(v1, v2, v3, hi, box_lo(a.x as int, b.x as int, c.x as int), box_hi(a.x as int, b.x as int, c.x as int), x);
        let i = choose|i: int| 0 <= i < r.len() && r[i] == f;
        assert(rows(v1, v2, v3, lo, hi)[prefix.len() + i] == f);
    } else {
        lemma_rows_contain(v1, v2, v3, lo, hi - 1, x, y);
        let i = choose|i: int| 0 <= i < prefix.len() && prefix[i] == f;
        assert(rows(v1, v2, v3, lo, hi)[i] == f);
    }
}

/// Every pixel whose center a triangle covers yields its fragment: together with
/// the definition of the scan, the fragments are exactly the covered pixels.
pub proof fn lemma_covered_pixel_yields_fragment(v1: Vertex, v2: Vertex, v3: Vertex, x: int, y: int)
    requires
        !degenerate(v1.transformed_position, v2.transformed_position, v3.transformed_position),
        covers(v1.transformed_position, v2.transformed_position, v3.transformed_position, x, y),
    ensures
        raster_spec(v1, v2, v3).contains(fragment_at(v1, v2, v3, x, y)),
{
    let a = v1.transformed_position;
    let b = v2.transformed_position;
    let c = v3.transformed_position;
    lemma_covered_pixels_in_box(a, b, c, x, y);
    lemma_rows_contain(
        v1,
        v2,
        v3,
        box_lo(a.y as int, b.y as int, c.y as int),
        box_hi(a.y as int, b.y as int, c.y as int),
        x,
        y,
    );
}

proof fn lemma_row_ordered(v1: Vertex, v2: Vertex, v3: Vertex, y: int, lo: int, hi: int)
    requires
        pixel_in_reach(y),
        pixel_in_reach(lo),
        pixel_in_reach(hi),
    ensures
        forall|j: int|
            0 <= j < row(v1, v2, v3, y, lo, hi).len() ==> {
                let f = #[trigger] row(v1, v2, v3, y, lo, hi)[j];
                f.y == y && lo <= f.x <= hi
            },
        forall|j: int, k: int|
            0 <= j < k < row(v1, v2, v3, y, lo, hi).len() ==> #[trigger] row(v1, v2, v3, y, lo, hi)[j].x
                < #[trigger] row(v1, v2, v3, y, lo, hi)[k].x,
    decreases hi - lo,
{
    if lo <= hi {
        if lo <= hi - 1 {
            lemma_row_ordered(v1, v2, v3, y, lo, hi - 1);
        }
        let pre = row(v1, v2, v3, y, lo, hi - 1);
        let s = row(v1, v2, v3, y, lo, hi);
        assert forall|j: int| 0 <= j < s.len() implies {
            let f = #[trigger] s[j];
            f.y == y && lo <= f.x <= hi
        } by {
            if j < pre.len() {
                assert(s[j] == pre[j]);
            }
        }
        assert forall|j: int, k: int| 0 <= j < k < s.len() implies #[trigger] s[j].x < #[trigger] s[k].x by {
            assert(s[j] == pre[j]);
            if k < pre.len() {
                assert(s[k] == pre[k]);
            }
        }
    }
}

/// Lexicographic order of pixels, row first.
pub open spec fn pixel_before(f: Fragment, g: Fragment) -> bool {
    f.y < g.y || (f.y == g.y && f.x < g.x)
}

proof fn lemma_rows_ordered(v1: Vertex, v2: Vertex, v3: Vertex, lo: int, hi: int)
    requires
        pixel_in_reach(lo),
        pixel_in_reach(hi),
        pixel_in_reach(box_lo(v1.transformed_position.x as int, v2.transformed_position.x as int, v3.transformed_position.x as int)),
        pixel_in_reach(box_hi(v1.transformed_position.x as int, v2.transformed_position.x as int, v3.transformed_position.x as int)),
    ensures
        forall|j: int|
            0 <= j < rows(v1, v2, v3, lo, hi).len() ==> lo <= (#[trigger] rows(v1, v2, v3, lo, hi)[j]).y <= hi,
        forall|j: int, k: int|
            0 <= j < k < rows(v1, v2, v3, lo, hi).len() ==> pixel_before(
                #[trigger] rows(v1, v2, v3, lo, hi)[j],
                #[trigger] rows(v1, v2, v3, lo, hi)[k],
            ),
    decreases hi - lo,
{
    let a = v1.transformed_position;
    let b = v2.transformed_position;
    let c = v3.transformed_position;
    if lo <= hi {
        if lo <= hi - 1 {
            lemma_rows_ordered(v1, v2, v3, lo, hi - 1);
        }
        let xl = box_lo(a.x as int, b.x as int, c.x as int);
        let xh = box_hi(a.x as int, b.x as int, c.x as int);
        lemma_row_ordered(v1, v2, v3, hi, xl, xh);
        let pre = rows(v1, v2, v3, lo, hi - 1);
        let r = row(v1, v2, v3, hi, xl, xh);
        let s = rows(v1, v2, v3, lo, hi);
        assert(s == pre + r);
        assert forall|j: int| 0 <= j < s.len() implies lo <= (#[trigger] s[j]).y <= hi by {
            if j < pre.len() {
                assert(s[j] == pre[j]);
            } else {
                assert(s[j] == r[j - pre.len()]);
            }
        }
        assert forall|j: int, k: int| 0 <= j < k < s.len() implies pixel_before(#[trigger] s[j], #[trigger] s[k]) by {
            if k < pre.len() {
                assert(s[j] == pre[j] && s[k] == pre[k]);
            } else if j < pre.len() {
                assert(s[j] == pre[j] && s[k] == r[k - pre.len()]);
            } else {
                assert(s[j] == r[j - pre.len()] && s[k] == r[k - pre.len()]);
            }
        }
    }
}

/// A triangle yields at most one fragment per pixel: its fragments come in strict
/// row-major order.
pub proof fn lemma_one_fragment_per_pixel(v1: Vertex, v2: Vertex, v3: Vertex)
    requires
        v1.wf(),
        v2.wf(),
        v3.wf(),
    ensures
        forall|j: int, k: int|
            0 <= j < k < raster_spec(v1, v2, v3).len() ==> pixel_before(
                #[trigger] raster_spec(v1, v2, v3)[j],
                #[trigger] raster_spec(v1, v2, v3)[k],
            ),
{
    let a = v1.transformed_position;
    let b = v2.transformed_position;
    let c = v3.transformed_position;
    lemma_box_in_reach(a.x as int, b.x as int, c.x as int);
    lemma_box_in_reach(a.y as int, b.y as int, c.y as int);
    if !degenerate(a, b, c) {
        lemma_rows_ordered(
            v1,
            v2,
            v3,
            box_lo(a.y as int, b.y as int, c.y as int),
            box_hi(a.y as int, b.y as int, c.y as int),
        );
    }
}

} // verus!
