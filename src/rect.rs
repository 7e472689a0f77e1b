//! An axis-aligned rectangle in a plane `z = k`: a primitive whose
//! intersections are exact.
use vstd::prelude::*;
use crate::aabb::AABB;
use crate::hittable::{HitRecord, Hittable};
use crate::ray::{Vec3, Ratio, Interval, Ray, ratio_lt, ratio_eq, lemma_same_value,
    floor_div};

verus! {

/// The rectangle `[x0, x1] x [y0, y1]` in the plane `z = k`.
pub struct XyRect<M> {
    pub x0: i32,
    pub x1: i32,
    pub y0: i32,
    pub y1: i32,
    pub k: i32,
    pub material: M,
}

impl<M> XyRect<M> {
    /// The padded bounding box fits in `i32`.
    pub open spec fn wf(self) -> bool {
        &&& self.x0 > i32::MIN
        &&& self.x1 < i32::MAX
        &&& self.y0 > i32::MIN
        &&& self.y1 < i32::MAX
        &&& i32::MIN < self.k < i32::MAX
    }

    pub fn new(x0: i32, x1: i32, y0: i32, y1: i32, k: i32, material: M) -> (r: XyRect<M>)
        ensures
            r.x0 == x0,
            r.x1 == x1,
            r.y0 == y0,
            r.y1 == y1,
            r.k == k,
            r.material == material,
    {
        XyRect { x0, x1, y0, y1, k, material }
    }

    /// The parameter at which a ray not parallel to the plane crosses it.
    pub open spec fn plane_t(self, ray: Ray) -> Ratio {
        let dz = ray.direction.z as int;
        let oz = ray.origin.z as int;
        if dz > 0 {
            Ratio { num: (self.k - oz) as i64, den: dz as i64 }
        } else {
            Ratio { num: (oz - self.k) as i64, den: (-dz) as i64 }
        }
    }

    /// The ray crosses the plane inside the rectangle.
    pub open spec fn crosses(self, ray: Ray) -> bool {
        let t = self.plane_t(ray);
        &&& ray.direction.z != 0
        &&& self.x0 * t.den <= ray.scaled_at(t, 0) <= self.x1 * t.den
        &&& self.y0 * t.den <= ray.scaled_at(t, 1) <= self.y1 * t.den
    }
}

/// Scaled coordinates keep their order against a bound when the parameter is
/// rewritten.
proof fn lemma_scaled_same_value(ray: Ray, a: int, m: int, t: Ratio, u: Ratio)
    requires
        t.wf(),
        u.wf(),
        ratio_eq(t, u),
        0 <= a < 3,
    ensures
        (m * t.den < ray.scaled_at(t, a)) == (m * u.den < ray.scaled_at(u, a)),
        (m * t.den <= ray.scaled_at(t, a)) == (m * u.den <= ray.scaled_at(u, a)),
        (ray.scaled_at(t, a) < m * t.den) == (ray.scaled_at(u, a) < m * u.den),
        (ray.scaled_at(t, a) <= m * t.den) == (ray.scaled_at(u, a) <= m * u.den),
{
    let (tn, td, un, ud, o, d) = (t.num as int, t.den as int, u.num as int, u.den as int,
        ray.origin.at(a), ray.direction.at(a));
    // (m - o) * den compared with num * d, scaled by the other denominator
    assert(((m - o) * td < tn * d) == ((m - o) * ud < un * d)) by (nonlinear_arith)
        requires
            td > 0,
            ud > 0,
            tn * ud == un * td,
    {
        assert(tn * d * ud == un * d * td);
        if (m - o) * td < tn * d {
            assert((m - o) * td * ud < tn * d * ud);
        }
        if (m - o) * ud < un * d {
            assert((m - o) * ud * td < un * d * td);
        }
    }
    assert(((m - o) * td <= tn * d) == ((m - o) * ud <= un * d)) by (nonlinear_arith)
        requires
            td > 0,
            ud > 0,
            tn * ud == un * td,
    {
        assert(tn * d * ud == un * d * td);
        if (m - o) * td <= tn * d {
            assert((m - o) * td * ud <= tn * d * ud);
        }
        if (m - o) * ud <= un * d {
            assert((m - o) * ud * td <= un * d * td);
        }
    }
    assert((m * td < o * td + tn * d) == ((m - o) * td < tn * d)) by (nonlinear_arith);
    assert((m * ud < o * ud + un * d) == ((m - o) * ud < un * d)) by (nonlinear_arith);
    assert((m * td <= o * td + tn * d) == ((m - o) * td <= tn * d)) by (nonlinear_arith);
    assert((m * ud <= o * ud + un * d) == ((m - o) * ud <= un * d)) by (nonlinear_arith);
    assert((o * td + tn * d < m * td) == (tn * d < (m - o) * td)) by (nonlinear_arith);
    assert((o * ud + un * d < m * ud) == (un * d < (m - o) * ud)) by (nonlinear_arith);
    assert((o * td + tn * d <= m * td) == (tn * d <= (m - o) * td)) by (nonlinear_arith);
    assert((o * ud + un * d <= m * ud) == (un * d <= (m - o) * ud)) by (nonlinear_arith);
}

/// The width of `[lo, hi]`, or 1 when it has none.
fn span(lo: i32, hi: i32) -> (r: i64)
    ensures
        r == if lo < hi { hi - lo } else { 1 },
        r > 0,
{
    if lo < hi {
        hi as i64 - lo as i64
    } else {
        1
    }
}

/// A scaled coordinate within `[lo * den, hi * den]` rounds down into
/// `[lo, hi]`.
proof fn lemma_floor_in_range(s: int, den: int, lo: int, hi: int)
    requires
        den > 0,
        lo * den <= s <= hi * den,
    ensures
        lo <= s / den <= hi,
{
    vstd::arithmetic::div_mod::lemma_fundamental_div_mod(s, den);
    let q = s / den;
    let r = s % den;
    assert(lo <= q <= hi) by (nonlinear_arith)
        requires
            s == den * q + r,
            0 <= r < den,
            lo * den <= s <= hi * den,
            den > 0,
    {
        if q < lo {
            assert(q + 1 <= lo);
            assert((q + 1) * den <= lo * den);
        }
        if q > hi {
            assert(q >= hi + 1);
            assert(q * den >= (hi + 1) * den);
        }
    }
}

proof fn lemma_small_product(x: int, y: int)
    requires
        -0x1_0000_0000 <= x <= 0x1_0000_0000,
        -0x1_0000_0000 <= y <= 0x1_0000_0000,
    ensures
        -0x1_0000_0000_0000_0000 <= x * y <= 0x1_0000_0000_0000_0000,
{
    assert(-0x1_0000_0000_0000_0000 <= x * y <= 0x1_0000_0000_0000_0000) by (nonlinear_arith)
        requires
            -0x1_0000_0000 <= x <= 0x1_0000_0000,
            -0x1_0000_0000 <= y <= 0x1_0000_0000,
    {
        assert(x * y <= 0x1_0000_0000 * 0x1_0000_0000);
        assert(x * y >= -(0x1_0000_0000 * 0x1_0000_0000));
    }
}

impl<M: Clone> Hittable for XyRect<M> {
    type Material = M;

    /// Met exactly where the ray crosses the plane inside the rectangle.
    open spec fn hits_at(&self, ray: Ray, t: Ratio) -> bool {
        self.crosses(ray) && ratio_eq(t, self.plane_t(ray))
    }

    /// The rectangle padded by one unit on every side, so that its box has
    /// depth and every point of it lies strictly inside.
    open spec fn bounds(&self) -> Option<AABB> {
        if self.wf() {
            Some(
                AABB {
                    min: Vec3 {
                        x: (self.x0 - 1) as i32,
                        y: (self.y0 - 1) as i32,
                        z: (self.k - 1) as i32,
                    },
                    max: Vec3 {
                        x: (self.x1 + 1) as i32,
                        y: (self.y1 + 1) as i32,
                        z: (self.k + 1) as i32,
                    },
                },
            )
        } else {
            None
        }
    }

    proof fn lemma_hit_inside_bounds(&self, ray: Ray, t: Ratio) {
        if self.wf() {
            let b = self.bounds()->Some_0;
            let p = self.plane_t(ray);
            lemma_scaled_same_value(ray, 0, b.min.x as int, t, p);
            lemma_scaled_same_value(ray, 0, b.max.x as int, t, p);
            lemma_scaled_same_value(ray, 1, b.min.y as int, t, p);
            lemma_scaled_same_value(ray, 1, b.max.y as int, t, p);
            lemma_scaled_same_value(ray, 2, b.min.z as int, t, p);
            lemma_scaled_same_value(ray, 2, b.max.z as int, t, p);
            let (pd, x0, x1, y0, y1, k) = (p.den as int, self.x0 as int, self.x1 as int,
                self.y0 as int, self.y1 as int, self.k as int);
            assert((x0 - 1) * pd < x0 * pd && x1 * pd < (x1 + 1) * pd) by (nonlinear_arith)
                requires
                    pd > 0,
            ;
            assert((y0 - 1) * pd < y0 * pd && y1 * pd < (y1 + 1) * pd) by (nonlinear_arith)
                requires
                    pd > 0,
            ;
            let (oz, dz, pn) = (ray.origin.z as int, ray.direction.z as int, p.num as int);
            assert(oz * pd + pn * dz == k * pd) by (nonlinear_arith)
                requires
                    (dz > 0 && pn == k - oz && pd == dz) || (dz < 0 && pn == oz - k && pd == -dz),
            ;
            assert((k - 1) * pd < k * pd && k * pd < (k + 1) * pd) by (nonlinear_arith)
                requires
                    pd > 0,
            ;
            assert forall|a: int| 0 <= a < 3 implies b.min.at(a) * t.den < #[trigger] ray.scaled_at(
                t,
                a,
            ) < b.max.at(a) * t.den by {
                assert(ray.scaled_at(p, 2) == oz * pd + pn * dz);
            }
        }
    }

    /// The hit lies at the lattice point below the crossing, with surface
    /// coordinates measured from that point, and the normal `(0, 0, 1)` turned
    /// against the ray.
    fn hit(&self, ray: &Ray, interval: &Interval) -> (r: Option<HitRecord<M>>)
        ensures
            r is Some ==> {
                let rec = r->Some_0;
                &&& rec.t == self.plane_t(*ray)
                &&& rec.point.x == ray.scaled_at(rec.t, 0) / rec.t.den as int
                &&& rec.point.y == ray.scaled_at(rec.t, 1) / rec.t.den as int
                &&& rec.point.z == self.k
                &&& rec.front_face == (ray.direction.z < 0)
                &&& rec.normal == if rec.front_face {
                    Vec3 { x: 0, y: 0, z: 1 }
                } else {
                    Vec3 { x: 0, y: 0, z: -1i32 }
                }
                &&& rec.u == (Ratio {
                    num: (rec.point.x - self.x0) as i64,
                    den: if self.x0 < self.x1 { (self.x1 - self.x0) as i64 } else { 1 },
                })
                &&& rec.v == (Ratio {
                    num: (rec.point.y - self.y0) as i64,
                    den: if self.y0 < self.y1 { (self.y1 - self.y0) as i64 } else { 1 },
                })
            },
    {
        let dz = ray.direction.z as i64;
        if dz == 0 {
            return None;
        }
        let t = if dz > 0 {
            Ratio::new(self.k as i64 - ray.origin.z as i64, dz)
        } else {
            Ratio::new(ray.origin.z as i64 - self.k as i64, -dz)
        };
        assert(t == self.plane_t(*ray));
        if !interval.includes(&t) {
            proof {
                assert forall|u: Ratio| u.wf() && interval.contains(u) implies !#[trigger] self.hits_at(
                    *ray,
                    u,
                ) by {
                    if self.hits_at(*ray, u) {
                        lemma_same_value(u, t, interval.start);
                        if interval.end is Some {
                            lemma_same_value(u, t, interval.end->Some_0);
                        }
                    }
                }
            }
            return None;
        }
        let den = t.den as i128;
        proof {
            let d = t.den as int;
            let n = t.num as int;
            assert(-0x1_0000_0000 <= n <= 0x1_0000_0000 && 0 < d <= 0x1_0000_0000);
            lemma_small_product(ray.origin.x as int, d);
            lemma_small_product(ray.origin.y as int, d);
            lemma_small_product(n, ray.direction.x as int);
            lemma_small_product(n, ray.direction.y as int);
            lemma_small_product(self.x0 as int, d);
            lemma_small_product(self.x1 as int, d);
            lemma_small_product(self.y0 as int, d);
            lemma_small_product(self.y1 as int, d);
        }
        let sx = ray.origin.x as i128 * den + t.num as i128 * ray.direction.x as i128;
        let sy = ray.origin.y as i128 * den + t.num as i128 * ray.direction.y as i128;
        if sx < self.x0 as i128 * den || sx > self.x1 as i128 * den || sy < self.y0 as i128 * den
            || sy > self.y1 as i128 * den {
            return None;
        }
        proof {
            assert forall|u: Ratio|
                u.wf() && interval.contains(u) && ratio_lt(u, t) implies !#[trigger] self.hits_at(
                *ray,
                u,
            ) by {
                if self.hits_at(*ray, u) {
                    lemma_same_value(u, t, t);
                }
            }
            assert(ratio_eq(t, t));
        }
        let px = floor_div(sx, den);
        let py = floor_div(sy, den);
        proof {
            lemma_floor_in_range(sx as int, den as int, self.x0 as int, self.x1 as int);
            lemma_floor_in_range(sy as int, den as int, self.y0 as int, self.y1 as int);
        }
        let point = Vec3::new(px as i32, py as i32, self.k);
        let u = Ratio::new(px as i64 - self.x0 as i64, span(self.x0, self.x1));
        let v = Ratio::new(py as i64 - self.y0 as i64, span(self.y0, self.y1));
        let mut rec = HitRecord::new(t, point, Vec3::new(0, 0, 1), u, v, true, self.material.clone());
        rec.set_face_normal(ray, Vec3::new(0, 0, 1));
        Some(rec)
    }

    fn bounding_box(&self) -> (r: Option<AABB>) {
        if self.x0 > i32::MIN && self.x1 < i32::MAX && self.y0 > i32::MIN && self.y1 < i32::MAX
            && self.k > i32::MIN && self.k < i32::MAX {
            Some(
                AABB::new(
                    Vec3::new(self.x0 - 1, self.y0 - 1, self.k - 1),
                    Vec3::new(self.x1 + 1, self.y1 + 1, self.k + 1),
                ),
            )
        } else {
            None
        }
    }
}

} // verus!
