use vstd::prelude::*;

verus! {

/// A point on the fixed-point grid that scene geometry is snapped to.
#[derive(Clone, Copy, Debug, PartialEq, Eq, Structural)]
pub struct Point3 {
    pub x: i32,
    pub y: i32,
    pub z: i32,
}

impl Point3 {
    pub fn new(x: i32, y: i32, z: i32) -> (r: Point3)
        ensures
            r == (Point3 { x, y, z }),
    {
        Point3 { x, y, z }
    }
}

pub open spec fn imin(a: int, b: int) -> int {
    if a <= b { a } else { b }
}

pub open spec fn imax(a: int, b: int) -> int {
    if a >= b { a } else { b }
}

/// Axis-aligned bounding box on the fixed-point grid.
#[derive(Clone, Copy, Debug, PartialEq, Eq, Structural)]
pub struct AABB {
    min: Point3,
    max: Point3,
}

impl AABB {
    pub closed spec fn lo(self) -> Point3 {
        self.min
    }

    pub closed spec fn hi(self) -> Point3 {
        self.max
    }

    /// Every box this library builds has `min <= max` on each axis.
    pub open spec fn wf(self) -> bool {
        &&& self.lo().x <= self.hi().x
        &&& self.lo().y <= self.hi().y
        &&& self.lo().z <= self.hi().z
    }

    pub fn new(min: Point3, max: Point3) -> (r: AABB)
        requires
            min.x <= max.x,
            min.y <= max.y,
            min.z <= max.z,
        ensures
            r.lo() == min,
            r.hi() == max,
            r.wf(),
    {
        AABB { min, max }
    }

    pub fn min(&self) -> (r: Point3)
        ensures
            r == self.lo(),
    {
        self.min
    }

    pub fn max(&self) -> (r: Point3)
        ensures
            r == self.hi(),
    {
        self.max
    }

    /// Twice the center, `min + max`, exact on the integer grid.
    pub open spec fn center2(self) -> (int, int, int) {
        (
            self.lo().x + self.hi().x,
            self.lo().y + self.hi().y,
            self.lo().z + self.hi().z,
        )
    }

    pub fn doubled_center(&self) -> (r: (i64, i64, i64))
        ensures
            r.0 == self.center2().0,
            r.1 == self.center2().1,
            r.2 == self.center2().2,
    {
        (
            self.min.x as i64 + self.max.x as i64,
            self.min.y as i64 + self.max.y as i64,
            self.min.z as i64 + self.max.z as i64,
        )
    }

    /// The box spanned by the component-wise minimum and maximum of two boxes.
    pub open spec fn combined(self, o: AABB) -> (Point3, Point3) {
        (
            Point3 {
                x: imin(self.lo().x as int, o.lo().x as int) as i32,
                y: imin(self.lo().y as int, o.lo().y as int) as i32,
                z: imin(self.lo().z as int, o.lo().z as int) as i32,
            },
            Point3 {
                x: imax(self.hi().x as int, o.hi().x as int) as i32,
                y: imax(self.hi().y as int, o.hi().y as int) as i32,
                z: imax(self.hi().z as int, o.hi().z as int) as i32,
            },
        )
    }

    /// `self` encloses `inner` on every axis.
    pub open spec fn contains(self, inner: AABB) -> bool {
        &&& self.lo().x <= inner.lo().x && inner.hi().x <= self.hi().x
        &&& self.lo().y <= inner.lo().y && inner.hi().y <= self.hi().y
        &&& self.lo().z <= inner.lo().z && inner.hi().z <= self.hi().z
    }

    /// Edge lengths along x, y and z.
    pub open spec fn extent(self) -> (int, int, int) {
        (
            self.hi().x - self.lo().x,
            self.hi().y - self.lo().y,
            self.hi().z - self.lo().z,
        )
    }

    pub open spec fn area(self) -> int {
        area_of(self.lo(), self.hi())
    }

    pub fn combine(&self, o: &AABB) -> (r: AABB)
        requires
            self.wf(),
            o.wf(),
        ensures
            r.wf(),
            (r.lo(), r.hi()) == self.combined(*o),
            r.contains(*self),
            r.contains(*o),
    {
        let min = Point3 {
            x: if self.min.x <= o.min.x { self.min.x } else { o.min.x },
            y: if self.min.y <= o.min.y { self.min.y } else { o.min.y },
            z: if self.min.z <= o.min.z { self.min.z } else { o.min.z },
        };
        let max = Point3 {
            x: if self.max.x >= o.max.x { self.max.x } else { o.max.x },
            y: if self.max.y >= o.max.y { self.max.y } else { o.max.y },
            z: if self.max.z >= o.max.z { self.max.z } else { o.max.z },
        };
        AABB { min, max }
    }

    pub fn encloses(&self, inner: &AABB) -> (r: bool)
        ensures
            r == self.contains(*inner),
    {
        self.min.x <= inner.min.x && inner.max.x <= self.max.x && self.min.y <= inner.min.y
            && inner.max.y <= self.max.y && self.min.z <= inner.min.z && inner.max.z
            <= self.max.z
    }

    pub fn surface_area(&self) -> (r: u128)
        requires
            self.wf(),
        ensures
            r == self.area(),
            r < 0x8_0000_0000_0000_0000,
    {
        let w = (self.max.x as i64 - self.min.x as i64) as u128;
        let h = (self.max.y as i64 - self.min.y as i64) as u128;
        let d = (self.max.z as i64 - self.min.z as i64) as u128;
        proof {
            lemma_area_bound(w as int, h as int, d as int);
        }
        2 * (w * h + h * d + d * w)
    }
}

/// Surface area of the box spanned by `lo` and `hi`.
pub open spec fn area_of(lo: Point3, hi: Point3) -> int {
    let w = hi.x - lo.x;
    let h = hi.y - lo.y;
    let d = hi.z - lo.z;
    2 * (w * h + h * d + d * w)
}

/// Largest possible edge length on the grid.
pub open spec fn max_extent() -> int {
    0x1_0000_0000
}

proof fn lemma_area_bound(w: int, h: int, d: int)
    requires
        0 <= w < max_extent(),
        0 <= h < max_extent(),
        0 <= d < max_extent(),
    ensures
        0 <= w * h < 0x1_0000_0000_0000_0000,
        0 <= h * d < 0x1_0000_0000_0000_0000,
        0 <= d * w < 0x1_0000_0000_0000_0000,
        2 * (w * h + h * d + d * w) < 0x8_0000_0000_0000_0000,
{
    assert(0 <= w * h < 0x1_0000_0000_0000_0000) by (nonlinear_arith)
        requires
            0 <= w < 0x1_0000_0000,
            0 <= h < 0x1_0000_0000,
    ;
    assert(0 <= h * d < 0x1_0000_0000_0000_0000) by (nonlinear_arith)
        requires
            0 <= h < 0x1_0000_0000,
            0 <= d < 0x1_0000_0000,
    ;
    assert(0 <= d * w < 0x1_0000_0000_0000_0000) by (nonlinear_arith)
        requires
            0 <= d < 0x1_0000_0000,
            0 <= w < 0x1_0000_0000,
    ;
}

proof fn lemma_area_monotone(a: AABB, b: AABB)
    requires
        a.wf(),
        b.wf(),
        a.contains(b),
    ensures
        a.area() >= b.area(),
{
    let (w, h, d) = a.extent();
    let (w2, h2, d2) = b.extent();
    assert(w * h >= w2 * h2 && h * d >= h2 * d2 && d * w >= d2 * w2) by (nonlinear_arith)
        requires
            w >= w2 >= 0,
            h >= h2 >= 0,
            d >= d2 >= 0,
    ;
}

/// The box combining two boxes is their component-wise minimum and maximum, it
/// encloses both, and its surface area is at least that of either.
pub proof fn lemma_combine_bounds(a: AABB, b: AABB, c: AABB)
    requires
        a.wf(),
        b.wf(),
        (c.lo(), c.hi()) == a.combined(b),
    ensures
        c.lo().x == imin(a.lo().x as int, b.lo().x as int),
        c.lo().y == imin(a.lo().y as int, b.lo().y as int),
        c.lo().z == imin(a.lo().z as int, b.lo().z as int),
        c.hi().x == imax(a.hi().x as int, b.hi().x as int),
        c.hi().y == imax(a.hi().y as int, b.hi().y as int),
        c.hi().z == imax(a.hi().z as int, b.hi().z as int),
        c.wf(),
        c.contains(a),
        c.contains(b),
        c.area() >= a.area(),
        c.area() >= b.area(),
{
    lemma_area_monotone(c, a);
    lemma_area_monotone(c, b);
}

/// Combining with an enclosing box never gives a smaller surface area.
pub proof fn lemma_combined_area_monotone(x: AABB, a: AABB, b: AABB)
    requires
        x.wf(),
        a.wf(),
        b.wf(),
        a.contains(b),
    ensures
        area_of(x.combined(a).0, x.combined(a).1) >= area_of(x.combined(b).0, x.combined(b).1),
{
    let (lo1, hi1) = x.combined(a);
    let (lo2, hi2) = x.combined(b);
    let w1 = hi1.x - lo1.x;
    let h1 = hi1.y - lo1.y;
    let d1 = hi1.z - lo1.z;
    let w2 = hi2.x - lo2.x;
    let h2 = hi2.y - lo2.y;
    let d2 = hi2.z - lo2.z;
    assert(w1 >= w2 >= 0 && h1 >= h2 >= 0 && d1 >= d2 >= 0);
    assert(w1 * h1 >= w2 * h2 && h1 * d1 >= h2 * d2 && d1 * w1 >= d2 * w2) by (nonlinear_arith)
        requires
            w1 >= w2 >= 0,
            h1 >= h2 >= 0,
            d1 >= d2 >= 0,
    ;
}

/// Combining is symmetric.
pub proof fn lemma_combined_symmetric(a: AABB, b: AABB)
    ensures
        a.combined(b) == b.combined(a),
{
}

} // verus!
