//! The draw-call stages on either side of shading: rasterizing a mesh, and
//! compositing shaded fragments into a framebuffer.
use vstd::prelude::*;
use crate::color::packed;
use crate::framebuffer::{lemma_depth_never_increases, lemma_index_injective, FrameView, Framebuffer};
use crate::geometry::{Fragment, Vertex};
use crate::raster::{raster_spec, triangle};

verus! {

/// The fragments of the first `n` triangles of a mesh, where triangle `t` is made
/// of the vertices `3t`, `3t + 1` and `3t + 2`.
pub open spec fn mesh_spec(vs: Seq<Vertex>, n: nat) -> Seq<Fragment>
    decreases n,
{
    if n == 0 {
        Seq::empty()
    } else {
        let t = n - 1;
        mesh_spec(vs, t as nat) + raster_spec(vs[3 * t], vs[3 * t + 1], vs[3 * t + 2])
    }
}

/// Rasterizes a mesh of transformed vertices, taken in consecutive groups of three;
/// one or two vertices left over at the end are ignored.
pub fn rasterize_mesh(vertices: &Vec<Vertex>) -> (fragments: Vec<Fragment>)
    requires
        forall|i: int| 0 <= i < vertices@.len() ==> (#[trigger] vertices@[i]).wf(),
    ensures
        fragments@ == mesh_spec(vertices@, vertices@.len() / 3),
{
    let len = vertices.len();
    let n = len / 3;
    let mut fragments: Vec<Fragment> = Vec::new();
    let mut t: usize = 0;
    while t < n
        invariant
            len == vertices@.len(),
            n == len / 3,
            t <= n,
            forall|i: int| 0 <= i < vertices@.len() ==> (#[trigger] vertices@[i]).wf(),
            fragments@ == mesh_spec(vertices@, t as nat),
        decreases n - t,
    {
        proof {
            vstd::arithmetic::div_mod::lemma_fundamental_div_mod(vertices@.len() as int, 3);
            vstd::arithmetic::div_mod::lemma_mod_pos_bound(vertices@.len() as int, 3);
            assert(3 * t + 2 < vertices@.len());
        }
        let mut tri = triangle(&vertices[3 * t], &vertices[3 * t + 1], &vertices[3 * t + 2]);
        fragments.append(&mut tri);
        t = t + 1;
    }
    fragments
}

/// One shaded fragment written to the framebuffer: when its pixel lies inside the
/// buffer, its color is selected and written with a depth test; otherwise nothing.
pub open spec fn draw(v: FrameView, f: Fragment) -> FrameView {
    if v.in_bounds(f.x as int, f.y as int) {
        let c = packed(f.color) as u32;
        v.with_current(c).put(f.x as int, f.y as int, f.depth, c)
    } else {
        v
    }
}

/// The shaded fragments written in order.
pub open spec fn draw_all(v: FrameView, fs: Seq<Fragment>) -> FrameView
    decreases fs.len(),
{
    if fs.len() == 0 {
        v
    } else {
        draw(draw_all(v, fs.drop_last()), fs.last())
    }
}

/// Writes shaded fragments into the framebuffer, in order, each with a depth test
/// against what the frame already holds; no stored depth ever grows.
pub fn composite(framebuffer: &mut Framebuffer, fragments: &Vec<Fragment>)
    requires
        old(framebuffer).wf(),
    ensures
        final(framebuffer).wf(),
        final(framebuffer)@ == draw_all(old(framebuffer)@, fragments@),
        forall|i: int|
            0 <= i < old(framebuffer)@.depths.len() ==> #[trigger] final(framebuffer)@.depths[i]
                <= old(framebuffer)@.depths[i],
{
    let mut i: usize = 0;
    while i < fragments.len()
        invariant
            i <= fragments@.len(),
            framebuffer.wf(),
            framebuffer@ == draw_all(old(framebuffer)@, fragments@.subrange(0, i as int)),
            framebuffer@.depths.len() == old(framebuffer)@.depths.len(),
            forall|j: int|
                0 <= j < old(framebuffer)@.depths.len() ==> #[trigger] framebuffer@.depths[j]
                    <= old(framebuffer)@.depths[j],
        decreases fragments@.len() - i,
    {
        let f = fragments[i];
        let ghost before = framebuffer@;
        if f.x >= 0 && f.y >= 0 && (f.x as usize) < framebuffer.width && (f.y as usize)
            < framebuffer.height {
            let c = f.color.to_hex();
            framebuffer.set_current_color(c);
            framebuffer.point(f.x, f.y, f.depth);
            proof {
                lemma_depth_never_increases(before.with_current(c), f.x as int, f.y as int, f.depth, c);
                assert forall|j: int| 0 <= j < old(framebuffer)@.depths.len() implies #[trigger] framebuffer@.depths[j]
                    <= old(framebuffer)@.depths[j] by {
                    assert(framebuffer@.depths[j] <= before.with_current(c).depths[j]);
                    assert(before.depths[j] <= old(framebuffer)@.depths[j]);
                }
            }
        }
        proof {
            assert(fragments@.subrange(0, i + 1).drop_last() =~= fragments@.subrange(0, i as int));
        }
        i = i + 1;
    }
    proof {
        assert(fragments@.subrange(0, fragments@.len() as int) =~= fragments@);
    }
}

/// The fragment lands on buffer entry `i` of a framebuffer of this size.
pub open spec fn aims(v: FrameView, f: Fragment, i: int) -> bool {
    v.in_bounds(f.x as int, f.y as int) && v.index(f.x as int, f.y as int) == i
}

/// Entry `i` after the writes `fs`: untouched, or the depth and color of the first
/// write aimed at it among those of least depth.
pub open spec fn nearest_first_wins(v: FrameView, fs: Seq<Fragment>, r: FrameView, i: int) -> bool {
    &&& r.depths[i] <= v.depths[i]
    &&& forall|j: int| 0 <= j < fs.len() && aims(v, fs[j], i) ==> r.depths[i] <= #[trigger] fs[j].depth
    &&& r.depths[i] == v.depths[i] ==> r.colors[i] == v.colors[i]
    &&& r.depths[i] < v.depths[i] ==> exists|j: int|
        0 <= j < fs.len() && aims(v, fs[j], i) && #[trigger] fs[j].depth == r.depths[i]
            && r.colors[i] == packed(fs[j].color) as u32
            && forall|k: int| 0 <= k < j && aims(v, fs[k], i) ==> fs[k].depth > fs[j].depth
}

/// After any sequence of depth-tested writes, each entry holds the least depth
/// written to it (or its earlier depth, if that was nearer), with the color of the
/// first write that reached that depth.
pub proof fn lemma_draw_all_nearest_wins(v: FrameView, fs: Seq<Fragment>, i: int)
    requires
        v.wf(),
        0 <= i < v.depths.len(),
    ensures
        draw_all(v, fs).wf(),
        draw_all(v, fs).width == v.width,
        draw_all(v, fs).height == v.height,
        nearest_first_wins(v, fs, draw_all(v, fs), i),
    decreases fs.len(),
{
    if fs.len() > 0 {
        let p = fs.drop_last();
        let f = fs.last();
        let n = fs.len() - 1;
        lemma_draw_all_nearest_wins(v, p, i);
        let r0 = draw_all(v, p);
        let r = draw_all(v, fs);
        assert(r == draw(r0, f));
        if r0.in_bounds(f.x as int, f.y as int) {
            lemma_index_in_buffer(r0, f.x as int, f.y as int);
        }
        assert forall|j: int| 0 <= j < fs.len() && aims(v, fs[j], i) implies r.depths[i] <= #[trigger] fs[j].depth by {
            if j < n {
                assert(p[j] == fs[j]);
            }
        }
        if r.depths[i] < v.depths[i] {
            if aims(v, f, i) && f.depth < r0.depths[i] {
                assert forall|k: int| 0 <= k < n && aims(v, fs[k], i) implies fs[k].depth > fs[n].depth by {
                    assert(p[k] == fs[k]);
                }
                assert(fs[n] == f);
            } else {
                assert(r.depths[i] == r0.depths[i] && r.colors[i] == r0.colors[i]);
                let j = choose|j: int|
                    0 <= j < p.len() && aims(v, p[j], i) && #[trigger] p[j].depth == r0.depths[i]
                        && r0.colors[i] == packed(p[j].color) as u32
                        && forall|k: int| 0 <= k < j && aims(v, p[k], i) ==> p[k].depth > p[j].depth;
                assert(fs[j] == p[j]);
                assert forall|k: int| 0 <= k < j && aims(v, fs[k], i) implies fs[k].depth > fs[j].depth by {
                    assert(p[k] == fs[k]);
                }
            }
        }
    }
}

proof fn lemma_index_in_buffer(v: FrameView, x: int, y: int)
    requires
        v.in_bounds(x, y),
    ensures
        0 <= v.index(x, y) < v.width * v.height,
{
    assert(0 <= y * v.width + x < v.width * v.height) by (nonlinear_arith)
        requires
            0 <= x < v.width,
            0 <= y < v.height,
    ;
}

/// Writes aimed at the same pixel have pairwise distinct depths.
pub open spec fn distinct_depths_per_pixel(fs: Seq<Fragment>) -> bool {
    forall|j: int, k: int|
        0 <= j < fs.len() && 0 <= k < fs.len() && j != k && fs[j].x == fs[k].x && fs[j].y == fs[k].y
            ==> #[trigger] fs[j].depth != #[trigger] fs[k].depth
}

proof fn lemma_depth_at_most(v: FrameView, fs1: Seq<Fragment>, fs2: Seq<Fragment>, i: int)
    requires
        v.wf(),
        0 <= i < v.depths.len(),
        fs1.to_multiset() == fs2.to_multiset(),
    ensures
        draw_all(v, fs1).depths[i] <= draw_all(v, fs2).depths[i],
{
    lemma_draw_all_nearest_wins(v, fs1, i);
    lemma_draw_all_nearest_wins(v, fs2, i);
    let r2 = draw_all(v, fs2);
    if r2.depths[i] < v.depths[i] {
        let j = choose|j: int|
            0 <= j < fs2.len() && aims(v, fs2[j], i) && #[trigger] fs2[j].depth == r2.depths[i]
                && r2.colors[i] == packed(fs2[j].color) as u32
                && forall|k: int| 0 <= k < j && aims(v, fs2[k], i) ==> fs2[k].depth > fs2[j].depth;
        fs1.to_multiset_ensures();
        fs2.to_multiset_ensures();
        assert(fs2.contains(fs2[j]));
        assert(fs2.to_multiset().count(fs2[j]) > 0);
        assert(fs1.to_multiset().count(fs2[j]) > 0);
        assert(fs1.contains(fs2[j]));
        let k = choose|k: int| 0 <= k < fs1.len() && fs1[k] == fs2[j];
        assert(aims(v, fs1[k], i));
    }
}

proof fn lemma_draw_all_shape(v: FrameView, fs: Seq<Fragment>)
    requires
        v.wf(),
    ensures
        draw_all(v, fs).wf(),
        draw_all(v, fs).width == v.width,
        draw_all(v, fs).height == v.height,
    decreases fs.len(),
{
    if fs.len() > 0 {
        lemma_draw_all_shape(v, fs.drop_last());
        let r0 = draw_all(v, fs.drop_last());
        let f = fs.last();
        if r0.in_bounds(f.x as int, f.y as int) {
            lemma_index_in_buffer(r0, f.x as int, f.y as int);
        }
    }
}

/// The frame that depth-tested writes leave does not depend on their order, as long
/// as writes aimed at the same pixel have distinct depths.
pub proof fn lemma_draw_order_independent(v: FrameView, fs1: Seq<Fragment>, fs2: Seq<Fragment>)
    requires
        v.wf(),
        fs1.to_multiset() == fs2.to_multiset(),
        distinct_depths_per_pixel(fs1),
    ensures
        draw_all(v, fs1).colors == draw_all(v, fs2).colors,
        draw_all(v, fs1).depths == draw_all(v, fs2).depths,
{
    let r1 = draw_all(v, fs1);
    let r2 = draw_all(v, fs2);
    lemma_draw_all_shape(v, fs1);
    lemma_draw_all_shape(v, fs2);
    assert forall|i: int| 0 <= i < v.depths.len() implies r1.depths[i] == r2.depths[i]
        && r1.colors[i] == r2.colors[i] by {
        lemma_depth_at_most(v, fs1, fs2, i);
        lemma_depth_at_most(v, fs2, fs1, i);
        lemma_draw_all_nearest_wins(v, fs1, i);
        lemma_draw_all_nearest_wins(v, fs2, i);
        if r1.depths[i] < v.depths[i] {
            let j1 = choose|j: int|
                0 <= j < fs1.len() && aims(v, fs1[j], i) && #[trigger] fs1[j].depth == r1.depths[i]
                    && r1.colors[i] == packed(fs1[j].color) as u32
                    && forall|k: int| 0 <= k < j && aims(v, fs1[k], i) ==> fs1[k].depth > fs1[j].depth;
            let j2 = choose|j: int|
                0 <= j < fs2.len() && aims(v, fs2[j], i) && #[trigger] fs2[j].depth == r2.depths[i]
                    && r2.colors[i] == packed(fs2[j].color) as u32
                    && forall|k: int| 0 <= k < j && aims(v, fs2[k], i) ==> fs2[k].depth > fs2[j].depth;
            fs1.to_multiset_ensures();
            fs2.to_multiset_ensures();
            assert(fs2.contains(fs2[j2]));
            assert(fs2.to_multiset().count(fs2[j2]) > 0);
            assert(fs1.to_multiset().count(fs2[j2]) > 0);
            assert(fs1.contains(fs2[j2]));
            let k = choose|k: int| 0 <= k < fs1.len() && fs1[k] == fs2[j2];
            lemma_index_injective(
                v.width as int,
                fs1[k].x as int,
                fs1[k].y as int,
                fs1[j1].x as int,
                fs1[j1].y as int,
            );
            assert(fs1[k].depth == fs1[j1].depth);
            assert(k == j1);
        }
    }
    assert(r1.colors =~= r2.colors);
    assert(r1.depths =~= r2.depths);
}

} // verus!
