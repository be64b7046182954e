//! A color buffer with a parallel depth buffer and depth-tested pixel writes.
use vstd::prelude::*;

verus! {

/// The depth of a pixel that nothing has been drawn to: farther than any write.
pub const FAR: i64 = i64::MAX;

/// The contents of a framebuffer as mathematical values.
pub struct FrameView {
    pub width: nat,
    pub height: nat,
    pub colors: Seq<u32>,
    pub depths: Seq<i64>,
    pub current: u32,
}

impl FrameView {
    /// Both buffers hold one entry per pixel.
    pub open spec fn wf(self) -> bool {
        &&& self.colors.len() == self.width * self.height
        &&& self.depths.len() == self.width * self.height
    }

    pub open spec fn in_bounds(self, x: int, y: int) -> bool {
        0 <= x < self.width && 0 <= y < self.height
    }

    /// Row-major position of pixel `(x, y)` in the buffers.
    pub open spec fn index(self, x: int, y: int) -> int {
        y * self.width + x
    }

    /// The effect of a depth-tested write of `color` at `(x, y)`: it lands only on a
    /// pixel inside the buffer whose stored depth is strictly greater than `depth`.
    pub open spec fn put(self, x: int, y: int, depth: i64, color: u32) -> FrameView {
        if self.in_bounds(x, y) && depth < self.depths[self.index(x, y)] {
            FrameView {
                colors: self.colors.update(self.index(x, y), color),
                depths: self.depths.update(self.index(x, y), depth),
                ..self
            }
        } else {
            self
        }
    }

    /// The same contents with `color` selected for the following writes.
    pub open spec fn with_current(self, color: u32) -> FrameView {
        FrameView { current: color, ..self }
    }
}

proof fn lemma_index_bounds(w: int, h: int, x: int, y: int)
    requires
        0 <= x < w,
        0 <= y < h,
    ensures
        0 <= y * w + x < w * h,
{
    assert(0 <= y * w + x < w * h) by (nonlinear_arith)
        requires
            0 <= x < w,
            0 <= y < h,
    ;
}

pub(crate) proof fn lemma_index_injective(w: int, x1: int, y1: int, x2: int, y2: int)
    requires
        0 <= x1 < w,
        0 <= x2 < w,
        0 <= y1,
        0 <= y2,
        y1 * w + x1 == y2 * w + x2,
    ensures
        x1 == x2 && y1 == y2,
{
    if y1 < y2 {
        assert(y1 * w + w <= y2 * w) by (nonlinear_arith)
            requires
                y1 < y2,
                0 < w,
        ;
    } else if y2 < y1 {
        assert(y2 * w + w <= y1 * w) by (nonlinear_arith)
            requires
                y2 < y1,
                0 < w,
        ;
    }
}

/// A depth-tested write never raises the depth stored at any pixel.
pub proof fn lemma_depth_never_increases(v: FrameView, x: int, y: int, depth: i64, color: u32)
    requires
        v.wf(),
    ensures
        v.put(x, y, depth, color).wf(),
        forall|i: int| 0 <= i < v.depths.len() ==> v.put(x, y, depth, color).depths[i] <= #[trigger] v.depths[i],
{
    if v.in_bounds(x, y) {
        lemma_index_bounds(v.width as int, v.height as int, x, y);
    }
}

/// Two depth-tested writes commute unless they hit the same pixel at the same depth:
/// the nearer surface wins whichever is drawn first.
pub proof fn lemma_nearest_wins_in_any_order(
    v: FrameView,
    x1: int,
    y1: int,
    d1: i64,
    c1: u32,
    x2: int,
    y2: int,
    d2: i64,
    c2: u32,
)
    requires
        v.wf(),
        d1 != d2 || x1 != x2 || y1 != y2,
    ensures
        v.put(x1, y1, d1, c1).put(x2, y2, d2, c2) == v.put(x2, y2, d2, c2).put(x1, y1, d1, c1),
{
    let w = v.width as int;
    let h = v.height as int;
    if v.in_bounds(x1, y1) {
        lemma_index_bounds(w, h, x1, y1);
    }
    if v.in_bounds(x2, y2) {
        lemma_index_bounds(w, h, x2, y2);
    }
    if v.in_bounds(x1, y1) && v.in_bounds(x2, y2) && v.index(x1, y1) == v.index(x2, y2) {
        lemma_index_injective(w, x1, y1, x2, y2);
    }
    let a = v.put(x1, y1, d1, c1).put(x2, y2, d2, c2);
    let b = v.put(x2, y2, d2, c2).put(x1, y1, d1, c1);
    assert(a.colors =~= b.colors);
    assert(a.depths =~= b.depths);
}

/// A width x height color buffer with a depth buffer, and the color that the next
/// depth-tested write will store.
pub struct Framebuffer {
    pub width: usize,
    pub height: usize,
    pub buffer: Vec<u32>,
    pub zbuffer: Vec<i64>,
    pub current_color: u32,
}

impl View for Framebuffer {
    type V = FrameView;

    open spec fn view(&self) -> FrameView {
        FrameView {
            width: self.width as nat,
            height: self.height as nat,
            colors: self.buffer@,
            depths: self.zbuffer@,
            current: self.current_color,
        }
    }
}

impl Framebuffer {
    pub open spec fn wf(&self) -> bool {
        self@.wf()
    }

    /// A black framebuffer at the far depth everywhere, with white selected.
    pub fn new(width: usize, height: usize) -> (fb: Framebuffer)
        requires
            width * height <= usize::MAX,
        ensures
            fb.wf(),
            fb.width == width,
            fb.height == height,
            forall|i: int| 0 <= i < fb@.colors.len() ==> fb@.colors[i] == 0 && fb@.depths[i] == FAR,
            fb.current_color == 0xFFFFFF,
    {
        let n: usize = width * height;
        let mut buffer: Vec<u32> = Vec::new();
        let mut zbuffer: Vec<i64> = Vec::new();
        let mut i: usize = 0;
        while i < n
            invariant
                i <= n,
                buffer@.len() == i,
                zbuffer@.len() == i,
                forall|j: int| 0 <= j < i ==> buffer@[j] == 0 && zbuffer@[j] == FAR,
            decreases n - i,
        {
            buffer.push(0);
            zbuffer.push(FAR);
            i = i + 1;
        }
        Framebuffer { width, height, buffer, zbuffer, current_color: 0xFFFFFF }
    }

    /// Every pixel set to `color` and to the far depth.
    pub fn clear(&mut self, color: u32)
        requires
            old(self).wf(),
        ensures
            final(self).wf(),
            final(self).width == old(self).width,
            final(self).height == old(self).height,
            final(self).current_color == old(self).current_color,
            forall|i: int|
                0 <= i < final(self)@.colors.len() ==> final(self)@.colors[i] == color
                    && final(self)@.depths[i] == FAR,
    {
        let n = self.buffer.len();
        let mut i: usize = 0;
        while i < n
            invariant
                self.wf(),
                self.width == old(self).width,
                self.height == old(self).height,
                self.current_color == old(self).current_color,
                n == self.buffer.len(),
                i <= n,
                forall|j: int| 0 <= j < i ==> self.buffer@[j] == color && self.zbuffer@[j] == FAR,
            decreases n - i,
        {
            self.buffer.set(i, color);
            self.zbuffer.set(i, FAR);
            i = i + 1;
        }
    }

    /// Selects the color stored by the following depth-tested writes.
    pub fn set_current_color(&mut self, color: u32)
        ensures
            final(self)@ == old(self)@.with_current(color),
    {
        self.current_color = color;
    }

    /// Depth-tested write of the current color at `(x, y)`: it lands only when the
    /// pixel lies inside the buffer and `depth` is strictly nearer than the stored
    /// depth, and then replaces both the stored depth and color; otherwise nothing changes.
    pub fn point(&mut self, x: i32, y: i32, depth: i64)
        requires
            old(self).wf(),
        ensures
            final(self)@ == old(self)@.put(x as int, y as int, depth, old(self).current_color),
            final(self).wf(),
    {
        let n = self.buffer.len();
        if x < 0 || y < 0 || x as usize >= self.width || y as usize >= self.height {
            return;
        }
        proof {
            lemma_index_bounds(self.width as int, self.height as int, x as int, y as int);
            assert((y as usize) * self.width <= (y as usize) * self.width + (x as usize) < n);
        }
        let idx = y as usize * self.width + x as usize;
        if depth < self.zbuffer[idx] {
            self.zbuffer.set(idx, depth);
            self.buffer.set(idx, self.current_color);
        }
    }
}

} // verus!
