use vstd::prelude::*;

use crate::aabb::{Point3, AABB};

verus! {

/// A distance along a ray as the fraction `num / den`, in units of the ray's
/// direction vector.
#[derive(Clone, Copy, Debug, PartialEq, Eq, Structural)]
pub struct Dist {
    pub num: i64,
    pub den: i64,
}

impl Dist {
    pub open spec fn wf(self) -> bool {
        self.den > 0
    }

    pub fn new(num: i64, den: i64) -> (d: Dist)
        requires
            den > 0,
        ensures
            d == (Dist { num, den }),
            d.wf(),
    {
        Dist { num, den }
    }
}

/// `a <= b` as fractions.
pub open spec fn le(a: Dist, b: Dist) -> bool {
    a.num * b.den <= b.num * a.den
}

/// `a < b` as fractions.
pub open spec fn lt(a: Dist, b: Dist) -> bool {
    a.num * b.den < b.num * a.den
}

pub fn dist_le(a: Dist, b: Dist) -> (r: bool)
    ensures
        r == le(a, b),
{
    proof {
        lemma_products(a, b);
    }
    (a.num as i128) * (b.den as i128) <= (b.num as i128) * (a.den as i128)
}

pub fn dist_lt(a: Dist, b: Dist) -> (r: bool)
    ensures
        r == lt(a, b),
{
    proof {
        lemma_products(a, b);
    }
    (a.num as i128) * (b.den as i128) < (b.num as i128) * (a.den as i128)
}

proof fn lemma_products(a: Dist, b: Dist)
    ensures
        -0x4000_0000_0000_0000_0000_0000_0000_0000 <= a.num * b.den
            <= 0x4000_0000_0000_0000_0000_0000_0000_0000,
        -0x4000_0000_0000_0000_0000_0000_0000_0000 <= b.num * a.den
            <= 0x4000_0000_0000_0000_0000_0000_0000_0000,
{
    lemma_product_bound(a.num as int, b.den as int);
    lemma_product_bound(b.num as int, a.den as int);
}

proof fn lemma_product_bound(x: int, y: int)
    requires
        -0x8000_0000_0000_0000 <= x <= 0x7fff_ffff_ffff_ffff,
        -0x8000_0000_0000_0000 <= y <= 0x7fff_ffff_ffff_ffff,
    ensures
        -0x4000_0000_0000_0000_0000_0000_0000_0000 <= x * y
            <= 0x4000_0000_0000_0000_0000_0000_0000_0000,
{
    let ax = if x < 0 { -x } else { x };
    let ay = if y < 0 { -y } else { y };
    assert(ax * ay <= 0x8000_0000_0000_0000 * 0x8000_0000_0000_0000) by (nonlinear_arith)
        requires
            0 <= ax <= 0x8000_0000_0000_0000,
            0 <= ay <= 0x8000_0000_0000_0000,
    ;
    assert(x * y == ax * ay || x * y == -(ax * ay)) by (nonlinear_arith)
        requires
            ax == x || ax == -x,
            ay == y || ay == -y,
    ;
}

/// Ordering of fractions with positive denominators is transitive.
pub proof fn lemma_le_trans(a: Dist, b: Dist, c: Dist)
    requires
        a.wf(),
        b.wf(),
        c.wf(),
        le(a, b),
        le(b, c),
    ensures
        le(a, c),
{
    assert(le(a, c)) by (nonlinear_arith)
        requires
            a.den > 0,
            b.den > 0,
            c.den > 0,
            a.num * b.den <= b.num * a.den,
            b.num * c.den <= c.num * b.den,
    {
        assert(a.num * b.den * c.den <= b.num * a.den * c.den) by (nonlinear_arith)
            requires
                c.den > 0,
                a.num * b.den <= b.num * a.den,
        ;
        assert(b.num * c.den * a.den <= c.num * b.den * a.den) by (nonlinear_arith)
            requires
                a.den > 0,
                b.num * c.den <= c.num * b.den,
        ;
        assert(b.den * (a.num * c.den) <= b.den * (c.num * a.den));
    }
}

/// A ray from `origin` along `direction`, both on the fixed-point grid.
#[derive(Clone, Copy, Debug, PartialEq, Eq, Structural)]
pub struct Ray {
    pub origin: Point3,
    pub direction: Point3,
}

impl Ray {
    pub open spec fn wf(self) -> bool {
        self.direction.x != 0 || self.direction.y != 0 || self.direction.z != 0
    }

    pub fn new(origin: Point3, direction: Point3) -> (r: Ray)
        requires
            direction.x != 0 || direction.y != 0 || direction.z != 0,
        ensures
            r.origin == origin,
            r.direction == direction,
            r.wf(),
    {
        Ray { origin, direction }
    }
}

/// The point at distance `t` along an axis lies in `[lo, hi]`.
pub open spec fn in_slab(o: int, d: int, lo: int, hi: int, t: Dist) -> bool {
    (lo - o) * t.den <= d * t.num && d * t.num <= (hi - o) * t.den
}

/// The point at distance `t` along the ray lies in the box.
pub open spec fn on_box(ray: Ray, b: AABB, t: Dist) -> bool {
    &&& in_slab(ray.origin.x as int, ray.direction.x as int, b.lo().x as int, b.hi().x as int, t)
    &&& in_slab(ray.origin.y as int, ray.direction.y as int, b.lo().y as int, b.hi().y as int, t)
    &&& in_slab(ray.origin.z as int, ray.direction.z as int, b.lo().z as int, b.hi().z as int, t)
}

/// A point of an inner box is a point of every box that encloses it.
pub proof fn lemma_on_enclosing_box(ray: Ray, outer: AABB, inner: AABB, t: Dist)
    requires
        t.wf(),
        outer.contains(inner),
        on_box(ray, inner, t),
    ensures
        on_box(ray, outer, t),
{
    lemma_slab_widen(ray.origin.x as int, ray.direction.x as int, outer.lo().x as int, inner.lo().x as int, inner.hi().x as int, outer.hi().x as int, t);
    lemma_slab_widen(ray.origin.y as int, ray.direction.y as int, outer.lo().y as int, inner.lo().y as int, inner.hi().y as int, outer.hi().y as int, t);
    lemma_slab_widen(ray.origin.z as int, ray.direction.z as int, outer.lo().z as int, inner.lo().z as int, inner.hi().z as int, outer.hi().z as int, t);
}

proof fn lemma_slab_widen(o: int, d: int, lo2: int, lo: int, hi: int, hi2: int, t: Dist)
    requires
        t.wf(),
        lo2 <= lo,
        hi <= hi2,
        in_slab(o, d, lo, hi, t),
    ensures
        in_slab(o, d, lo2, hi2, t),
{
    assert((lo2 - o) * t.den <= (lo - o) * t.den) by (nonlinear_arith)
        requires
            lo2 <= lo,
            t.den > 0,
    ;
    assert((hi - o) * t.den <= (hi2 - o) * t.den) by (nonlinear_arith)
        requires
            hi <= hi2,
            t.den > 0,
    ;
}

/// Where a ray meets one slab.
pub enum Span {
    /// Every point of the ray is in the slab.
    All,
    /// No point of the ray is in the slab.
    Empty,
    /// The points from `enter` to `exit`.
    Between(Dist, Dist),
}

fn axis_span(o: i32, d: i32, lo: i32, hi: i32) -> (r: Span)
    ensures
        span_ok(r),
        d != 0 ==> r is Between,
        forall|t: Dist| t.wf() ==> (in_slab(o as int, d as int, lo as int, hi as int, t) <==> span_has(r, t)),
{
    if d > 0 {
        let e = Dist { num: lo as i64 - o as i64, den: d as i64 };
        let x = Dist { num: hi as i64 - o as i64, den: d as i64 };
        assert forall|t: Dist| t.wf() implies (in_slab(o as int, d as int, lo as int, hi as int, t) <==> (le(e, t) && le(t, x))) by {
            assert(t.num * d == d * t.num) by (nonlinear_arith);
        }
        Span::Between(e, x)
    } else if d < 0 {
        let e = Dist { num: o as i64 - hi as i64, den: -(d as i64) };
        let x = Dist { num: o as i64 - lo as i64, den: -(d as i64) };
        assert forall|t: Dist| t.wf() implies (in_slab(o as int, d as int, lo as int, hi as int, t) <==> (le(e, t) && le(t, x))) by {
            lemma_negative_slab(o as int, d as int, lo as int, hi as int, t);
        }
        Span::Between(e, x)
    } else if lo <= o && o <= hi {
        assert forall|t: Dist| t.wf() implies in_slab(o as int, d as int, lo as int, hi as int, t) by {
            lemma_flat_slab(o as int, lo as int, hi as int, t);
        }
        Span::All
    } else {
        assert forall|t: Dist| t.wf() implies !in_slab(o as int, d as int, lo as int, hi as int, t) by {
            lemma_flat_slab(o as int, lo as int, hi as int, t);
        }
        Span::Empty
    }
}

proof fn lemma_negative_slab(o: int, d: int, lo: int, hi: int, t: Dist)
    requires
        d < 0,
        t.wf(),
    ensures
        in_slab(o, d, lo, hi, t) <==> ((o - hi) * t.den <= t.num * (-d) && t.num * (-d) <= (o - lo) * t.den),
{
    assert((o - hi) * t.den == -((hi - o) * t.den)) by (nonlinear_arith);
    assert((o - lo) * t.den == -((lo - o) * t.den)) by (nonlinear_arith);
    assert(t.num * (-d) == -(d * t.num)) by (nonlinear_arith);
}

proof fn lemma_flat_slab(o: int, lo: int, hi: int, t: Dist)
    requires
        t.wf(),
    ensures
        in_slab(o, 0, lo, hi, t) <==> (lo <= o && o <= hi),
{
    assert((lo - o) * t.den <= 0 <==> lo <= o) by (nonlinear_arith)
        requires
            t.den > 0,
    ;
    assert(0 <= (hi - o) * t.den <==> o <= hi) by (nonlinear_arith)
        requires
            t.den > 0,
    ;
}

/// The points of a span.
pub open spec fn span_has(s: Span, t: Dist) -> bool {
    match s {
        Span::All => true,
        Span::Empty => false,
        Span::Between(e, x) => le(e, t) && le(t, x),
    }
}

pub open spec fn span_ok(s: Span) -> bool {
    match s {
        Span::Between(e, x) => e.wf() && x.wf(),
        _ => true,
    }
}

/// `t` lies between the optional bounds; a missing bound does not constrain.
pub open spec fn within(lo: Option<Dist>, hi: Option<Dist>, t: Dist) -> bool {
    &&& lo is None || le(lo.unwrap(), t)
    &&& hi is None || le(t, hi.unwrap())
}

pub open spec fn bound_ok(b: Option<Dist>) -> bool {
    b is None || b.unwrap().wf()
}

/// Intersects the optional bounds with a span; `None` when the span is empty.
fn narrow(lo: Option<Dist>, hi: Option<Dist>, s: Span) -> (r: Option<(Option<Dist>, Option<Dist>)>)
    requires
        bound_ok(lo),
        bound_ok(hi),
        span_ok(s),
    ensures
        r is None ==> s is Empty,
        r is Some ==> {
            &&& bound_ok(r.unwrap().0)
            &&& bound_ok(r.unwrap().1)
            &&& (lo is Some || s is Between) ==> r.unwrap().0 is Some
            &&& (hi is Some || s is Between) ==> r.unwrap().1 is Some
            &&& forall|t: Dist| t.wf() ==> (within(r.unwrap().0, r.unwrap().1, t) <==> (within(lo, hi, t) && span_has(s, t)))
        },
{
    match s {
        Span::All => Some((lo, hi)),
        Span::Empty => None,
        Span::Between(e, x) => {
            let new_lo = match lo {
                None => e,
                Some(l) => if dist_le(l, e) { e } else { l },
            };
            let new_hi = match hi {
                None => x,
                Some(h) => if dist_le(h, x) { h } else { x },
            };
            assert forall|t: Dist| t.wf() implies (within(Some(new_lo), Some(new_hi), t) <==> (within(lo, hi, t) && span_has(s, t))) by {
                if let Some(l) = lo {
                    if le(l, e) {
                        if le(e, t) {
                            lemma_le_trans(l, e, t);
                        }
                    } else if le(l, t) {
                        lemma_le_trans(e, l, t);
                    }
                }
                if let Some(h) = hi {
                    if le(h, x) {
                        if le(t, h) {
                            lemma_le_trans(t, h, x);
                        }
                    } else if le(t, x) {
                        lemma_le_trans(t, x, h);
                    }
                }
            }
            Some((Some(new_lo), Some(new_hi)))
        },
    }
}

/// Slab test: the distance at which the ray enters the box, if it meets it and
/// enters before `len`.
pub fn ray_box_collide(ray: &Ray, aabb: &AABB, len: Option<Dist>) -> (r: Option<Dist>)
    requires
        ray.wf(),
        bound_ok(len),
    ensures
        r is Some ==> {
            &&& r.unwrap().wf()
            &&& on_box(*ray, *aabb, r.unwrap())
            &&& forall|t: Dist| t.wf() && on_box(*ray, *aabb, t) ==> le(r.unwrap(), t)
            &&& len is Some ==> lt(r.unwrap(), len.unwrap())
        },
        r is None ==> forall|t: Dist|
            t.wf() && on_box(*ray, *aabb, t) ==> len is Some && le(len.unwrap(), t),
{
    let o = ray.origin;
    let d = ray.direction;
    let lo = aabb.min();
    let hi = aabb.max();
    let sx = axis_span(o.x, d.x, lo.x, hi.x);
    let sy = axis_span(o.y, d.y, lo.y, hi.y);
    let sz = axis_span(o.z, d.z, lo.z, hi.z);
    let (a1, b1) = match narrow(None, None, sx) {
        Some(p) => p,
        None => return None,
    };
    let (a2, b2) = match narrow(a1, b1, sy) {
        Some(p) => p,
        None => return None,
    };
    let (a3, b3) = match narrow(a2, b2, sz) {
        Some(p) => p,
        None => return None,
    };
    assert forall|t: Dist| t.wf() implies (on_box(*ray, *aabb, t) <==> within(a3, b3, t)) by {}
    match (a3, b3) {
        (Some(tmin), Some(tmax)) => {
            if !dist_le(tmin, tmax) {
                assert forall|t: Dist| t.wf() && on_box(*ray, *aabb, t) implies false by {
                    lemma_le_trans(tmin, t, tmax);
                }
                return None;
            }
            match len {
                Some(best) => {
                    if !dist_lt(tmin, best) {
                        assert forall|t: Dist| t.wf() && on_box(*ray, *aabb, t) implies le(best, t) by {
                            lemma_le_trans(best, tmin, t);
                        }
                        return None;
                    }
                },
                None => {},
            }
            Some(tmin)
        },
        _ => None,
    }
}

} // verus!
