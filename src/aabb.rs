//! Axis-aligned bounding boxes and the ray-slab test.
use vstd::prelude::*;
use crate::ray::{
    Vec3, Ratio, Interval, Ray, ratio_lt, ratio_le, before_end, lemma_lt_le_trans,
    lemma_le_lt_trans, lemma_le_le_trans,
};

verus! {

/// The parameters at which a ray is between the two planes of one axis.
#[derive(Clone, Copy, Debug, PartialEq, Eq, Structural)]
pub enum Slab {
    /// The ray runs parallel to the planes, outside them.
    Empty,
    /// The ray runs parallel to the planes, between them (or on one).
    Unbounded,
    /// The ray enters at the first parameter and leaves at the second.
    Span(Ratio, Ratio),
}

/// A box `[min, max]`; well formed when `min <= max` on every axis.
#[derive(Clone, Copy, Debug, PartialEq, Eq, Structural)]
pub struct AABB {
    pub min: Vec3,
    pub max: Vec3,
}

pub open spec fn min_i32(a: i32, b: i32) -> i32 {
    if a <= b { a } else { b }
}

pub open spec fn max_i32(a: i32, b: i32) -> i32 {
    if a >= b { a } else { b }
}

/// The component-wise minimum and maximum of two boxes.
pub open spec fn surrounding(b0: AABB, b1: AABB) -> AABB {
    AABB {
        min: Vec3 {
            x: min_i32(b0.min.x, b1.min.x),
            y: min_i32(b0.min.y, b1.min.y),
            z: min_i32(b0.min.z, b1.min.z),
        },
        max: Vec3 {
            x: max_i32(b0.max.x, b1.max.x),
            y: max_i32(b0.max.y, b1.max.y),
            z: max_i32(b0.max.z, b1.max.z),
        },
    }
}

fn min_of(a: i32, b: i32) -> (r: i32)
    ensures
        r == min_i32(a, b),
{
    if a <= b { a } else { b }
}

fn max_of(a: i32, b: i32) -> (r: i32)
    ensures
        r == max_i32(a, b),
{
    if a >= b { a } else { b }
}

impl AABB {
    pub open spec fn wf(self) -> bool {
        forall|a: int| 0 <= a < 3 ==> #[trigger] self.min.at(a) <= self.max.at(a)
    }

    /// `inner` lies within `self`.
    pub open spec fn encloses(self, inner: AABB) -> bool {
        forall|a: int|
            0 <= a < 3 ==> self.min.at(a) <= #[trigger] inner.min.at(a) && inner.max.at(a)
                <= self.max.at(a)
    }

    /// The point of `ray` at parameter `t` lies strictly inside the box.
    pub open spec fn holds_inside(self, ray: Ray, t: Ratio) -> bool {
        forall|a: int|
            0 <= a < 3 ==> self.min.at(a) * t.den < #[trigger] ray.scaled_at(t, a)
                < self.max.at(a) * t.den
    }

    pub fn new(min: Vec3, max: Vec3) -> (r: AABB)
        ensures
            r.min == min,
            r.max == max,
    {
        AABB { min, max }
    }

    pub fn surrounding_box(box0: AABB, box1: AABB) -> (r: AABB)
        ensures
            r == surrounding(box0, box1),
    {
        let min = Vec3::new(
            min_of(box0.min.x, box1.min.x),
            min_of(box0.min.y, box1.min.y),
            min_of(box0.min.z, box1.min.z),
        );
        let max = Vec3::new(
            max_of(box0.max.x, box1.max.x),
            max_of(box0.max.y, box1.max.y),
            max_of(box0.max.z, box1.max.z),
        );
        AABB::new(min, max)
    }

    /// The slab of axis `a` for `ray`.
    pub open spec fn slab_spec(self, ray: Ray, a: int) -> Slab {
        let m = self.min.at(a);
        let mx = self.max.at(a);
        let o = ray.origin.at(a);
        let d = ray.direction.at(a);
        if d > 0 {
            Slab::Span(
                Ratio { num: (m - o) as i64, den: d as i64 },
                Ratio { num: (mx - o) as i64, den: d as i64 },
            )
        } else if d < 0 {
            Slab::Span(
                Ratio { num: (o - mx) as i64, den: (-d) as i64 },
                Ratio { num: (o - m) as i64, den: (-d) as i64 },
            )
        } else if m <= o && o <= mx {
            Slab::Unbounded
        } else {
            Slab::Empty
        }
    }

    pub fn slab(&self, ray: &Ray, a: usize) -> (r: Slab)
        requires
            a < 3,
        ensures
            r == self.slab_spec(*ray, a as int),
    {
        let m = self.min.get(a) as i64;
        let mx = self.max.get(a) as i64;
        let o = ray.origin.get(a) as i64;
        let d = ray.direction.get(a) as i64;
        if d > 0 {
            Slab::Span(Ratio::new(m - o, d), Ratio::new(mx - o, d))
        } else if d < 0 {
            Slab::Span(Ratio::new(o - mx, -d), Ratio::new(o - m, -d))
        } else if m <= o && o <= mx {
            Slab::Unbounded
        } else {
            Slab::Empty
        }
    }

    /// Candidate `i` for the entry parameter: the interval start (`i == 3`)
    /// or the entry into the slab of axis `i`.
    pub open spec fn has_lower(self, ray: Ray, iv: Interval, i: int) -> bool {
        i == 3 || (0 <= i < 3 && self.slab_spec(ray, i) is Span)
    }

    pub open spec fn lower(self, ray: Ray, iv: Interval, i: int) -> Ratio {
        if i == 3 {
            iv.start
        } else {
            self.slab_spec(ray, i)->Span_0
        }
    }

    /// Candidate `j` for the exit parameter: the interval end (`j == 3`), if
    /// bounded, or the exit from the slab of axis `j`.
    pub open spec fn has_upper(self, ray: Ray, iv: Interval, j: int) -> bool {
        (j == 3 && iv.end is Some) || (0 <= j < 3 && self.slab_spec(ray, j) is Span)
    }

    pub open spec fn upper(self, ray: Ray, iv: Interval, j: int) -> Ratio {
        if j == 3 {
            iv.end->Some_0
        } else {
            self.slab_spec(ray, j)->Span_1
        }
    }

    /// Over the interval and the first `k` axes: no slab is empty and every
    /// entry candidate comes strictly before every exit candidate.
    pub open spec fn open_through(self, ray: Ray, iv: Interval, k: int) -> bool {
        &&& forall|a: int| 0 <= a < k ==> #[trigger] self.slab_spec(ray, a) != Slab::Empty
        &&& forall|i: int, j: int|
            (i == 3 || 0 <= i < k) && (j == 3 || 0 <= j < k) && self.has_lower(ray, iv, i)
                && self.has_upper(ray, iv, j) ==> ratio_lt(
                #[trigger] self.lower(ray, iv, i),
                #[trigger] self.upper(ray, iv, j),
            )
    }

    /// The ray meets the box at some parameter strictly inside the interval:
    /// the latest entry comes before the earliest exit.
    pub open spec fn hit_spec(self, ray: Ray, iv: Interval) -> bool {
        self.open_through(ray, iv, 3)
    }

    pub fn hit(&self, ray: &Ray, interval: &Interval) -> (r: bool)
        requires
            interval.wf(),
        ensures
            r == self.hit_spec(*ray, *interval),
    {
        let mut t_min = interval.start;
        let mut t_max = interval.end;
        let ghost mut li: int = 3;
        let ghost mut ui: int = 3;
        let mut a: usize = 0;
        while a < 3
            invariant
                interval.wf(),
                a <= 3,
                forall|b: int| 0 <= b < a ==> #[trigger] self.slab_spec(*ray, b) != Slab::Empty,
                li == 3 || 0 <= li < a,
                self.has_lower(*ray, *interval, li),
                t_min == self.lower(*ray, *interval, li),
                t_min.wf(),
                forall|i: int|
                    (i == 3 || 0 <= i < a) && self.has_lower(*ray, *interval, i) ==> ratio_le(
                        #[trigger] self.lower(*ray, *interval, i),
                        t_min,
                    ),
                t_max is None ==> forall|j: int|
                    (j == 3 || 0 <= j < a) ==> !#[trigger] self.has_upper(*ray, *interval, j),
                t_max is Some ==> {
                    &&& ui == 3 || 0 <= ui < a
                    &&& self.has_upper(*ray, *interval, ui)
                    &&& t_max->Some_0 == self.upper(*ray, *interval, ui)
                    &&& t_max->Some_0.wf()
                    &&& forall|j: int|
                        (j == 3 || 0 <= j < a) && self.has_upper(*ray, *interval, j) ==> ratio_le(
                            t_max->Some_0,
                            #[trigger] self.upper(*ray, *interval, j),
                        )
                },
                a > 0 ==> before_end(t_min, t_max),
            decreases 3 - a,
        {
            let s = self.slab(ray, a);
            match s {
                Slab::Empty => {
                    return false;
                },
                Slab::Unbounded => {},
                Slab::Span(lo, hi) => {
                    let ghost old_min = t_min;
                    if t_min.lt(&lo) {
                        proof {
                            assert forall|i: int|
                                (i == 3 || 0 <= i < a) && self.has_lower(*ray, *interval, i)
                                    implies ratio_le(
                                    #[trigger] self.lower(*ray, *interval, i),
                                    lo,
                                ) by {
                                lemma_le_le_trans(self.lower(*ray, *interval, i), old_min, lo);
                            }
                            li = a as int;
                        }
                        t_min = lo;
                    }
                    let ghost old_max = t_max;
                    match t_max {
                        None => {
                            t_max = Some(hi);
                            proof {
                                ui = a as int;
                            }
                        },
                        Some(u) => {
                            if hi.lt(&u) {
                                proof {
                                    assert forall|j: int|
                                        (j == 3 || 0 <= j < a) && self.has_upper(
                                            *ray,
                                            *interval,
                                            j,
                                        ) implies ratio_le(
                                        hi,
                                        #[trigger] self.upper(*ray, *interval, j),
                                    ) by {
                                        lemma_le_le_trans(hi, u, self.upper(*ray, *interval, j));
                                    }
                                    ui = a as int;
                                }
                                t_max = Some(hi);
                            }
                        },
                    }
                },
            }
            match t_max {
                Some(u) => {
                    if !t_min.lt(&u) {
                        proof {
                            if self.hit_spec(*ray, *interval) {
                                assert(ratio_lt(
                                    self.lower(*ray, *interval, li),
                                    self.upper(*ray, *interval, ui),
                                ));
                            }
                        }
                        return false;
                    }
                },
                None => {},
            }
            a = a + 1;
        }
        proof {
            assert forall|i: int, j: int|
                (i == 3 || 0 <= i < 3) && (j == 3 || 0 <= j < 3) && self.has_lower(
                    *ray,
                    *interval,
                    i,
                ) && self.has_upper(*ray, *interval, j) implies ratio_lt(
                #[trigger] self.lower(*ray, *interval, i),
                #[trigger] self.upper(*ray, *interval, j),
            ) by {
                let l = self.lower(*ray, *interval, i);
                let u = self.upper(*ray, *interval, j);
                let tm = t_max->Some_0;
                lemma_le_lt_trans(l, t_min, tm);
                lemma_lt_le_trans(l, tm, u);
            }
        }
        true
    }
}

/// Combining two boxes does not depend on their order, and the result
/// encloses both; it is well formed when they are.
pub proof fn lemma_surrounding_symmetric_enclosing(b0: AABB, b1: AABB)
    ensures
        surrounding(b0, b1) == surrounding(b1, b0),
        surrounding(b0, b1).encloses(b0),
        surrounding(b0, b1).encloses(b1),
        b0.wf() && b1.wf() ==> surrounding(b0, b1).wf(),
{
    let s = surrounding(b0, b1);
    assert forall|a: int| 0 <= a < 3 implies s.min.at(a) <= #[trigger] b0.min.at(a)
        && b0.max.at(a) <= s.max.at(a) && s.min.at(a) <= b1.min.at(a) && b1.max.at(a)
        <= s.max.at(a) by {}
    if b0.wf() && b1.wf() {
        assert forall|a: int| 0 <= a < 3 implies #[trigger] s.min.at(a) <= s.max.at(a) by {
            assert(b0.min.at(a) <= b0.max.at(a));
        }
    }
}

/// Enclosure is transitive.
pub proof fn lemma_encloses_trans(outer: AABB, mid: AABB, inner: AABB)
    requires
        outer.encloses(mid),
        mid.encloses(inner),
    ensures
        outer.encloses(inner),
{
    assert forall|a: int| 0 <= a < 3 implies outer.min.at(a) <= #[trigger] inner.min.at(a)
        && inner.max.at(a) <= outer.max.at(a) by {
        assert(mid.min.at(a) <= inner.min.at(a));
    }
}

/// A point strictly inside an enclosed box is strictly inside the outer box.
pub proof fn lemma_inside_enclosed(outer: AABB, inner: AABB, ray: Ray, t: Ratio)
    requires
        outer.encloses(inner),
        inner.holds_inside(ray, t),
        t.wf(),
    ensures
        outer.holds_inside(ray, t),
{
    assert forall|a: int| 0 <= a < 3 implies outer.min.at(a) * t.den < #[trigger] ray.scaled_at(
        t,
        a,
    ) < outer.max.at(a) * t.den by {
        let (om, im, ix, ox, d) = (outer.min.at(a), inner.min.at(a), inner.max.at(a),
            outer.max.at(a), t.den as int);
        assert(inner.min.at(a) * t.den < ray.scaled_at(t, a) < inner.max.at(a) * t.den);
        assert(om * d <= im * d && ix * d <= ox * d) by (nonlinear_arith)
            requires
                om <= im,
                ix <= ox,
                d > 0,
        ;
    }
}

/// A box whose interior holds the point of a ray at parameter `t` is hit by
/// the ray over every interval that contains `t`.
pub proof fn lemma_inside_point_hits(b: AABB, ray: Ray, iv: Interval, t: Ratio)
    requires
        iv.wf(),
        t.wf(),
        iv.contains(t),
        b.holds_inside(ray, t),
    ensures
        b.hit_spec(ray, iv),
{
    // every entry candidate is at or before t, every exit candidate after it
    assert forall|a: int| 0 <= a < 3 implies #[trigger] b.slab_spec(ray, a) != Slab::Empty && (
    b.slab_spec(ray, a) is Span ==> ratio_lt(b.slab_spec(ray, a)->Span_0, t) && ratio_lt(
        t,
        b.slab_spec(ray, a)->Span_1,
    )) by {
        let (m, mx, o, d, n, q) = (b.min.at(a), b.max.at(a), ray.origin.at(a),
            ray.direction.at(a), t.num as int, t.den as int);
        assert(b.min.at(a) * t.den < ray.scaled_at(t, a) < b.max.at(a) * t.den);
        assert(m * q < o * q + n * d < mx * q);
        if d > 0 {
            assert((m - o) * q < n * d && n * d < (mx - o) * q) by (nonlinear_arith)
                requires
                    m * q < o * q + n * d < mx * q,
            ;
        } else if d < 0 {
            assert((o - mx) * q < n * (-d) && n * (-d) < (o - m) * q) by (nonlinear_arith)
                requires
                    m * q < o * q + n * d < mx * q,
            ;
        } else {
            assert(m < o && o < mx) by (nonlinear_arith)
                requires
                    m * q < o * q + n * d < mx * q,
                    d == 0,
                    q > 0,
            ;
        }
    }
    assert forall|i: int, j: int|
        (i == 3 || 0 <= i < 3) && (j == 3 || 0 <= j < 3) && b.has_lower(ray, iv, i) && b.has_upper(
            ray,
            iv,
            j,
        ) implies ratio_lt(#[trigger] b.lower(ray, iv, i), #[trigger] b.upper(ray, iv, j)) by {
        let l = b.lower(ray, iv, i);
        let u = b.upper(ray, iv, j);
        if i < 3 {
            assert(b.slab_spec(ray, i) != Slab::Empty);
        }
        if j < 3 {
            assert(b.slab_spec(ray, j) != Slab::Empty);
        }
        assert(ratio_le(l, t));
        lemma_le_lt_trans(l, t, u);
    }
}

/// Whenever a box holds the point of a ray at `t` strictly inside, the ray
/// hits the box over `[0, e)` for every `e` beyond `t` with `t >= 0`; and
/// once the ray has left one of the box's slabs by `t`, it misses the box over
/// `[s, oo)` for every `s` beyond `t`.
pub proof fn lemma_hit_around_inner_point(b: AABB, ray: Ray, t: Ratio, e: Ratio, s: Ratio)
    requires
        t.wf(),
        e.wf(),
        s.wf(),
        ratio_lt(t, e),
        ratio_lt(t, s),
    ensures
        b.holds_inside(ray, t) && t.num >= 0 ==> b.hit_spec(
            ray,
            Interval { start: Ratio { num: 0, den: 1 }, end: Some(e) },
        ),
        (exists|a: int|
            0 <= a < 3 && #[trigger] b.slab_spec(ray, a) is Span && ratio_le(
                b.slab_spec(ray, a)->Span_1,
                t,
            )) ==> !b.hit_spec(ray, Interval { start: s, end: None }),
{
    let iv0 = Interval { start: Ratio { num: 0, den: 1 }, end: Some(e) };
    if b.holds_inside(ray, t) && t.num >= 0 {
        assert(0 * (t.den as int) <= (t.num as int) * 1) by (nonlinear_arith)
            requires
                t.num >= 0,
        ;
        lemma_inside_point_hits(b, ray, iv0, t);
    }
    let iv1 = Interval { start: s, end: None };
    if exists|a: int|
        0 <= a < 3 && #[trigger] b.slab_spec(ray, a) is Span && ratio_le(
            b.slab_spec(ray, a)->Span_1,
            t,
        ) {
        let a = choose|a: int|
            0 <= a < 3 && #[trigger] b.slab_spec(ray, a) is Span && ratio_le(
                b.slab_spec(ray, a)->Span_1,
                t,
            );
        let hi = b.slab_spec(ray, a)->Span_1;
        if b.hit_spec(ray, iv1) {
            assert(b.has_lower(ray, iv1, 3) && b.has_upper(ray, iv1, a));
            assert(ratio_lt(b.lower(ray, iv1, 3), b.upper(ray, iv1, a)));
            assert(hi.wf());
            lemma_lt_le_trans(s, hi, t);
            assert(ratio_lt(t, s));
            assert(false) by (nonlinear_arith)
                requires
                    ratio_lt(s, t),
                    ratio_lt(t, s),
                    s.den > 0,
                    t.den > 0,
            ;
        }
    }
}

} // verus!
