use vstd::prelude::*;

use crate::color::Color;

verus! {

/// A pixel buffer of `w` by `h` colors, row by row.
pub struct Framebuffer {
    pub w: u32,
    pub h: u32,
    pub pixels: Vec<Color>,
}

pub open spec fn in_bounds(w: u32, h: u32, x: int, y: int) -> bool {
    0 <= x < w && 0 <= y < h
}

pub open spec fn pixel_index(w: u32, x: int, y: int) -> int {
    y * w + x
}

proof fn lemma_index_in_range(w: u32, h: u32, x: int, y: int)
    requires
        in_bounds(w, h, x, y),
    ensures
        0 <= pixel_index(w, x, y) < w as int * h as int,
{
    assert(0 <= y * w + x < w as int * h as int) by (nonlinear_arith)
        requires 0 <= x < w, 0 <= y < h;
}

/// Distinct pixels have distinct positions in the buffer.
proof fn lemma_index_injective(w: u32, x1: int, y1: int, x2: int, y2: int)
    requires
        0 <= x1 < w,
        0 <= x2 < w,
        0 <= y1,
        0 <= y2,
        pixel_index(w, x1, y1) == pixel_index(w, x2, y2),
    ensures
        x1 == x2 && y1 == y2,
{
    assert(y1 == y2) by (nonlinear_arith)
        requires 0 <= x1 < w, 0 <= x2 < w, 0 <= y1, 0 <= y2, y1 * w + x1 == y2 * w + x2;
}

impl Framebuffer {
    pub open spec fn wf(&self) -> bool {
        self.pixels@.len() == self.w as int * self.h as int
    }

    /// The color at (x, y); meaningful inside the buffer only.
    pub open spec fn pixel(&self, x: int, y: int) -> Color {
        self.pixels@[pixel_index(self.w, x, y)]
    }

    /// A buffer of `w` by `h` pixels, all transparent black.
    pub fn new(w: u32, h: u32) -> (fb: Framebuffer)
        requires
            w as int * h as int <= usize::MAX,
        ensures
            fb.wf(),
            fb.w == w && fb.h == h,
            forall|x: int, y: int| in_bounds(w, h, x, y) ==> #[trigger] fb.pixel(x, y) == (Color { r: 0, g: 0, b: 0, a: 0 }),
    {
        let n = w as usize * h as usize;
        let mut pixels: Vec<Color> = Vec::new();
        let mut i: usize = 0;
        while i < n
            invariant
                i <= n,
                pixels@.len() == i,
                forall|k: int| 0 <= k < i ==> pixels@[k] == (Color { r: 0, g: 0, b: 0, a: 0 }),
            decreases n - i,
        {
            pixels.push(Color { r: 0, g: 0, b: 0, a: 0 });
            i = i + 1;
        }
        let fb = Framebuffer { w, h, pixels };
        assert forall|x: int, y: int| in_bounds(w, h, x, y) implies #[trigger] fb.pixel(x, y) == (Color { r: 0, g: 0, b: 0, a: 0 }) by {
            lemma_index_in_range(w, h, x, y);
        }
        fb
    }

    pub fn shape(&self) -> (r: (u32, u32))
        ensures
            r == (self.w, self.h),
    {
        (self.w, self.h)
    }

    /// The color at (x, y), or none outside the buffer.
    pub fn get_pixel(&self, x: i64, y: i64) -> (r: Option<Color>)
        requires
            self.wf(),
        ensures
            r == if in_bounds(self.w, self.h, x as int, y as int) { Some(self.pixel(x as int, y as int)) } else { None },
    {
        if x < 0 || y < 0 || x >= self.w as i64 || y >= self.h as i64 {
            return None;
        }
        let len = self.pixels.len();
        proof {
            lemma_index_in_range(self.w, self.h, x as int, y as int);
            assert(y * self.w <= y * self.w + x);
        }
        Some(self.pixels[y as usize * self.w as usize + x as usize])
    }

    /// Sets the color at (x, y); a point outside the buffer changes nothing.
    pub fn set_pixel(&mut self, x: i64, y: i64, c: Color)
        requires
            old(self).wf(),
        ensures
            final(self).wf(),
            final(self).w == old(self).w && final(self).h == old(self).h,
            forall|px: int, py: int| #![trigger final(self).pixel(px, py)] in_bounds(final(self).w, final(self).h, px, py) ==> final(self).pixel(px, py) == if px == x && py == y {
                c
            } else {
                old(self).pixel(px, py)
            },
    {
        if x < 0 || y < 0 || x >= self.w as i64 || y >= self.h as i64 {
            return;
        }
        let len = self.pixels.len();
        proof {
            lemma_index_in_range(self.w, self.h, x as int, y as int);
            assert(y * self.w <= y * self.w + x);
        }
        let i = y as usize * self.w as usize + x as usize;
        self.pixels.set(i, c);
        proof {
            assert forall|px: int, py: int| in_bounds(self.w, self.h, px, py) implies #[trigger] self.pixel(px, py) == if px == x && py == y {
                c
            } else {
                old(self).pixel(px, py)
            } by {
                lemma_index_in_range(self.w, self.h, px, py);
                if pixel_index(self.w, px, py) == i {
                    lemma_index_injective(self.w, px, py, x as int, y as int);
                }
            }
        }
    }

    /// Paints every pixel with `c`.
    pub fn fill(&mut self, c: Color)
        requires
            old(self).wf(),
        ensures
            final(self).wf(),
            final(self).w == old(self).w && final(self).h == old(self).h,
            forall|px: int, py: int| in_bounds(final(self).w, final(self).h, px, py) ==> #[trigger] final(self).pixel(px, py) == c,
    {
        let n = self.pixels.len();
        let mut i: usize = 0;
        while i < n
            invariant
                n == self.pixels@.len(),
                i <= n,
                self.w == old(self).w && self.h == old(self).h,
                self.wf(),
                forall|k: int| 0 <= k < i ==> self.pixels@[k] == c,
            decreases n - i,
        {
            self.pixels.set(i, c);
            i = i + 1;
        }
        assert forall|px: int, py: int| in_bounds(self.w, self.h, px, py) implies #[trigger] self.pixel(px, py) == c by {
            lemma_index_in_range(self.w, self.h, px, py);
        }
    }
}

} // verus!
