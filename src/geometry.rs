use vstd::prelude::*;

verus! {

/// An axis-aligned rectangle: top-left corner and size in pixels.
#[derive(Clone, Copy, Debug, PartialEq, Eq, Structural, Hash)]
pub struct Rect {
    pub x0: i64,
    pub y0: i64,
    pub w: u32,
    pub h: u32,
}

impl Rect {
    pub open spec fn contains_spec(&self, x: int, y: int) -> bool {
        self.x0 <= x < self.x0 + self.w && self.y0 <= y < self.y0 + self.h
    }

    /// Whether the two rectangles share at least one pixel.
    pub open spec fn overlaps_spec(&self, o: &Rect) -> bool {
        &&& self.w > 0 && self.h > 0 && o.w > 0 && o.h > 0
        &&& self.x0 < o.x0 + o.w && o.x0 < self.x0 + self.w
        &&& self.y0 < o.y0 + o.h && o.y0 < self.y0 + self.h
    }

    /// The rectangle's center, rounded toward its top-left corner.
    pub fn center(&self) -> (r: (i64, i64))
        requires
            self.x0 + self.w / 2 <= i64::MAX,
            self.y0 + self.h / 2 <= i64::MAX,
        ensures
            r.0 == self.x0 + self.w / 2,
            r.1 == self.y0 + self.h / 2,
    {
        (self.x0 + (self.w / 2) as i64, self.y0 + (self.h / 2) as i64)
    }

    pub fn check_contains_point(&self, x: i64, y: i64) -> (r: bool)
        ensures
            r == self.contains_spec(x as int, y as int),
    {
        let (x0, y0, w, h) = (self.x0 as i128, self.y0 as i128, self.w as i128, self.h as i128);
        x0 <= x as i128 && (x as i128) < x0 + w && y0 <= y as i128 && (y as i128) < y0 + h
    }

    /// The pixels the two rectangles share, if any.
    pub fn intersection(&self, o: &Rect) -> (r: Option<Rect>)
        ensures
            r is Some <==> self.overlaps_spec(o),
            r matches Some(i) ==> forall|x: int, y: int| #[trigger] i.contains_spec(x, y) <==> (self.contains_spec(x, y)
                && o.contains_spec(x, y)),
    {
        if !(self.w > 0 && self.h > 0 && o.w > 0 && o.h > 0) {
            return None;
        }
        let (ax0, ay0, ax1, ay1) = (self.x0 as i128, self.y0 as i128, self.x0 as i128 + self.w as i128, self.y0 as i128 + self.h as i128);
        let (bx0, by0, bx1, by1) = (o.x0 as i128, o.y0 as i128, o.x0 as i128 + o.w as i128, o.y0 as i128 + o.h as i128);
        let x0 = if ax0 > bx0 { ax0 } else { bx0 };
        let y0 = if ay0 > by0 { ay0 } else { by0 };
        let x1 = if ax1 < bx1 { ax1 } else { bx1 };
        let y1 = if ay1 < by1 { ay1 } else { by1 };
        if x0 < x1 && y0 < y1 {
            Some(Rect { x0: x0 as i64, y0: y0 as i64, w: (x1 - x0) as u32, h: (y1 - y0) as u32 })
        } else {
            None
        }
    }
}

} // verus!
