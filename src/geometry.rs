use vstd::prelude::*;

verus! {

/// A position in device pixels.
#[derive(Clone, Copy, Debug, PartialEq, Eq, Structural)]
pub struct Point {
    pub x: i32,
    pub y: i32,
}

/// An extent in device pixels; a negative extent is allowed and is empty.
#[derive(Clone, Copy, Debug, PartialEq, Eq, Structural)]
pub struct Size {
    pub width: i32,
    pub height: i32,
}

/// An axis-aligned rectangle given by its top-left corner and its size.
#[derive(Clone, Copy, Debug, PartialEq, Eq, Structural)]
pub struct Bounds {
    pub origin: Point,
    pub size: Size,
}

/// The clip rectangle a primitive is drawn through.
#[derive(Clone, Copy, Debug, PartialEq, Eq, Structural)]
pub struct ContentMask {
    pub bounds: Bounds,
}

pub open spec fn max_int(a: int, b: int) -> int {
    if a >= b { a } else { b }
}

pub open spec fn min_int(a: int, b: int) -> int {
    if a <= b { a } else { b }
}

impl Bounds {
    pub open spec fn left(self) -> int {
        self.origin.x as int
    }

    pub open spec fn top(self) -> int {
        self.origin.y as int
    }

    pub open spec fn right(self) -> int {
        self.origin.x + self.size.width
    }

    pub open spec fn bottom(self) -> int {
        self.origin.y + self.size.height
    }

    /// Containment with both edges inclusive.
    pub open spec fn contains_point(self, p: Point) -> bool {
        &&& self.left() <= p.x <= self.right()
        &&& self.top() <= p.y <= self.bottom()
    }

    /// The overlap of two rectangles, or `None` when it has no positive
    /// width or no positive height.
    pub open spec fn clip(self, other: Bounds) -> Option<Bounds> {
        let l = max_int(self.left(), other.left());
        let t = max_int(self.top(), other.top());
        let r = min_int(self.right(), other.right());
        let b = min_int(self.bottom(), other.bottom());
        if r > l && b > t {
            Some(
                Bounds {
                    origin: Point { x: l as i32, y: t as i32 },
                    size: Size { width: (r - l) as i32, height: (b - t) as i32 },
                },
            )
        } else {
            None
        }
    }

    pub fn contains(&self, p: &Point) -> (r: bool)
        ensures
            r == self.contains_point(*p),
    {
        let right = self.origin.x as i64 + self.size.width as i64;
        let bottom = self.origin.y as i64 + self.size.height as i64;
        self.origin.x <= p.x && (p.x as i64) <= right && self.origin.y <= p.y && (p.y as i64)
            <= bottom
    }

    /// Intersects two rectangles; a degenerate overlap gives `None`.
    pub fn intersect(&self, other: &Bounds) -> (r: Option<Bounds>)
        ensures
            r == self.clip(*other),
    {
        let l: i32 = if self.origin.x >= other.origin.x {
            self.origin.x
        } else {
            other.origin.x
        };
        let t: i32 = if self.origin.y >= other.origin.y {
            self.origin.y
        } else {
            other.origin.y
        };
        let ar = self.origin.x as i64 + self.size.width as i64;
        let br = other.origin.x as i64 + other.size.width as i64;
        let ab = self.origin.y as i64 + self.size.height as i64;
        let bb = other.origin.y as i64 + other.size.height as i64;
        let r: i64 = if ar <= br {
            ar
        } else {
            br
        };
        let b: i64 = if ab <= bb {
            ab
        } else {
            bb
        };
        if r > l as i64 && b > t as i64 {
            let w = (r - l as i64) as i32;
            let h = (b - t as i64) as i32;
            Some(Bounds { origin: Point { x: l, y: t }, size: Size { width: w, height: h } })
        } else {
            None
        }
    }
}

} // verus!
