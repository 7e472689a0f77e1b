//! Hit records, the intersection protocol, and the flat collection.
use vstd::prelude::*;
use crate::aabb::{AABB, surrounding, lemma_surrounding_symmetric_enclosing, lemma_encloses_trans,
    lemma_inside_enclosed};
use crate::ray::{Vec3, Ratio, Interval, Ray, ratio_lt, lemma_lt_le_trans};

verus! {

/// One intersection: its parameter, the lattice point where it lies, the
/// normal turned against the ray, the surface coordinates, which side was
/// met, and the material there.
pub struct HitRecord<M> {
    pub t: Ratio,
    pub point: Vec3,
    pub normal: Vec3,
    pub u: Ratio,
    pub v: Ratio,
    pub front_face: bool,
    pub material: M,
}

pub open spec fn neg(v: Vec3) -> Vec3 {
    Vec3 { x: (-v.x) as i32, y: (-v.y) as i32, z: (-v.z) as i32 }
}

/// Every component can be negated within `i32`.
pub open spec fn negatable(v: Vec3) -> bool {
    v.x > i32::MIN && v.y > i32::MIN && v.z > i32::MIN
}

impl<M> HitRecord<M> {
    pub fn new(
        t: Ratio,
        point: Vec3,
        normal: Vec3,
        u: Ratio,
        v: Ratio,
        front_face: bool,
        material: M,
    ) -> (r: HitRecord<M>)
        ensures
            r.t == t,
            r.point == point,
            r.normal == normal,
            r.u == u,
            r.v == v,
            r.front_face == front_face,
            r.material == material,
    {
        HitRecord { t, point, normal, u, v, front_face, material }
    }

    /// Sets the normal against the ray; `front_face` tells whether the
    /// outward normal already was.
    pub fn set_face_normal(&mut self, ray: &Ray, outward_normal: Vec3)
        requires
            negatable(outward_normal),
        ensures
            final(self).front_face == (ray.direction.dot_spec(outward_normal) < 0),
            final(self).normal == if final(self).front_face {
                outward_normal
            } else {
                neg(outward_normal)
            },
            final(self).t == old(self).t,
            final(self).point == old(self).point,
            final(self).u == old(self).u,
            final(self).v == old(self).v,
            final(self).material == old(self).material,
    {
        self.front_face = ray.direction.dot(&outward_normal) < 0;
        self.normal = if self.front_face {
            outward_normal
        } else {
            Vec3::new(-outward_normal.x, -outward_normal.y, -outward_normal.z)
        };
    }
}

/// `r` is the nearest intersection of `h` with `ray` inside `iv`, or `None`
/// when there is none there.
pub open spec fn nearest<H: Hittable>(
    h: &H,
    ray: Ray,
    iv: Interval,
    r: Option<HitRecord<H::Material>>,
) -> bool {
    match r {
        None => forall|t: Ratio| t.wf() && iv.contains(t) ==> !#[trigger] h.hits_at(ray, t),
        Some(rec) => {
            &&& rec.t.wf()
            &&& iv.contains(rec.t)
            &&& h.hits_at(ray, rec.t)
            &&& forall|t: Ratio|
                t.wf() && iv.contains(t) && ratio_lt(t, rec.t) ==> !#[trigger] h.hits_at(ray, t)
        },
    }
}

/// Anything a ray can intersect.
pub trait Hittable: Sized {
    /// What a hit record names as the material met.
    type Material;

    /// The ray meets the entity at parameter `t`.
    spec fn hits_at(&self, ray: Ray, t: Ratio) -> bool;

    /// The entity's bounding box, if it has one.
    spec fn bounds(&self) -> Option<AABB>;

    /// The entity is met only strictly inside its bounding box.
    proof fn lemma_hit_inside_bounds(&self, ray: Ray, t: Ratio)
        requires
            t.wf(),
            self.hits_at(ray, t),
        ensures
            self.bounds() is Some ==> self.bounds()->Some_0.holds_inside(ray, t),
    ;

    /// The nearest intersection inside `interval`.
    fn hit(&self, ray: &Ray, interval: &Interval) -> (r: Option<HitRecord<Self::Material>>)
        requires
            interval.wf(),
        ensures
            match r {
                None => forall|t: Ratio|
                    t.wf() && interval.contains(t) ==> !#[trigger] self.hits_at(*ray, t),
                Some(rec) => {
                    &&& rec.t.wf()
                    &&& interval.contains(rec.t)
                    &&& self.hits_at(*ray, rec.t)
                    &&& forall|t: Ratio|
                        t.wf() && interval.contains(t) && ratio_lt(t, rec.t)
                            ==> !#[trigger] self.hits_at(*ray, t)
                },
            },
    ;

    fn bounding_box(&self) -> (r: Option<AABB>)
        ensures
            r == self.bounds(),
    ;
}

/// The bounding box of the first `k` members: none for no member or when one
/// of them has none, else the surrounding box of theirs.
pub open spec fn bounds_upto<H: Hittable>(s: Seq<H>, k: int) -> Option<AABB>
    decreases k,
{
    if k <= 0 {
        None
    } else if k == 1 {
        s[0].bounds()
    } else {
        match (bounds_upto::<H>(s, k - 1), s[k - 1].bounds()) {
            (Some(a), Some(b)) => Some(surrounding(a, b)),
            _ => None,
        }
    }
}

/// When the first `k` members have a box, each of them has one and it lies
/// within theirs.
pub proof fn lemma_bounds_upto_encloses<H: Hittable>(s: Seq<H>, k: int, i: int)
    requires
        0 <= i < k,
        bounds_upto::<H>(s, k) is Some,
    ensures
        s[i].bounds() is Some,
        bounds_upto::<H>(s, k)->Some_0.encloses(s[i].bounds()->Some_0),
    decreases k,
{
    if k == 1 {
        let b = s[0].bounds()->Some_0;
        lemma_surrounding_symmetric_enclosing(b, b);
        assert(b.encloses(b));
    } else {
        let a = bounds_upto::<H>(s, k - 1)->Some_0;
        let b = s[k - 1].bounds()->Some_0;
        lemma_surrounding_symmetric_enclosing(a, b);
        if i < k - 1 {
            lemma_bounds_upto_encloses::<H>(s, k - 1, i);
            lemma_encloses_trans(surrounding(a, b), a, s[i].bounds()->Some_0);
        }
    }
}

/// A member without a box leaves the first `k` members without one.
pub proof fn lemma_bounds_upto_none<H: Hittable>(s: Seq<H>, k: int, i: int)
    requires
        0 <= i < k,
        s[i].bounds() is None,
    ensures
        bounds_upto::<H>(s, k) is None,
{
    if bounds_upto::<H>(s, k) is Some {
        lemma_bounds_upto_encloses::<H>(s, k, i);
    }
}

/// The flat collection of primitives that a hierarchy is built from.
pub type HittableList<H> = Vec<H>;

/// The flat collection: met wherever one of its members is met.
impl<H: Hittable> Hittable for Vec<H> {
    type Material = H::Material;

    open spec fn hits_at(&self, ray: Ray, t: Ratio) -> bool {
        exists|i: int| 0 <= i < self.len() && #[trigger] self@[i].hits_at(ray, t)
    }

    open spec fn bounds(&self) -> Option<AABB> {
        bounds_upto::<H>(self@, self.len() as int)
    }

    proof fn lemma_hit_inside_bounds(&self, ray: Ray, t: Ratio) {
        let i = choose|i: int| 0 <= i < self.len() && #[trigger] self@[i].hits_at(ray, t);
        if self.bounds() is Some {
            lemma_bounds_upto_encloses::<H>(self@, self.len() as int, i);
            self@[i].lemma_hit_inside_bounds(ray, t);
            lemma_inside_enclosed(
                self.bounds()->Some_0,
                self@[i].bounds()->Some_0,
                ray,
                t,
            );
        }
    }

    /// Scans every member, narrowing the interval to the nearest hit so far.
    fn hit(&self, ray: &Ray, interval: &Interval) -> (r: Option<HitRecord<H::Material>>) {
        let mut closest_so_far = interval.end;
        let mut hit_record: Option<HitRecord<H::Material>> = None;
        let ghost mut gi: int = 0;
        let mut i: usize = 0;
        while i < self.len()
            invariant
                interval.wf(),
                i <= self.len(),
                hit_record is None ==> {
                    &&& closest_so_far == interval.end
                    &&& forall|j: int, t: Ratio|
                        0 <= j < i && t.wf() && interval.contains(t) ==> !#[trigger] self@[j].hits_at(
                            *ray,
                            t,
                        )
                },
                hit_record is Some ==> {
                    let rec = hit_record->Some_0;
                    &&& closest_so_far == Some(rec.t)
                    &&& rec.t.wf()
                    &&& interval.contains(rec.t)
                    &&& 0 <= gi < i
                    &&& self@[gi].hits_at(*ray, rec.t)
                    &&& forall|j: int, t: Ratio|
                        0 <= j < i && t.wf() && interval.contains(t) && ratio_lt(t, rec.t)
                            ==> !#[trigger] self@[j].hits_at(*ray, t)
                },
            decreases self.len() - i,
        {
            let sub = Interval::new(interval.start, closest_so_far);
            let found = self[i].hit(ray, &sub);
            match found {
                Some(temp_rec) => {
                    proof {
                        let nt = temp_rec.t;
                        if hit_record is Some {
                            let old_t = hit_record->Some_0.t;
                            assert(ratio_lt(nt, old_t));
                            match interval.end {
                                Some(e) => {
                                    lemma_lt_le_trans(nt, old_t, e);
                                },
                                None => {},
                            }
                        }
                        assert(interval.contains(nt));
                        assert forall|j: int, t: Ratio|
                            0 <= j < i + 1 && t.wf() && interval.contains(t) && ratio_lt(
                                t,
                                nt,
                            ) implies !#[trigger] self@[j].hits_at(*ray, t) by {
                            if hit_record is Some {
                                let old_t = hit_record->Some_0.t;
                                lemma_lt_le_trans(t, nt, old_t);
                            }
                            if j == i {
                                assert(sub.contains(t));
                            }
                        }
                        gi = i as int;
                    }
                    closest_so_far = Some(temp_rec.t);
                    hit_record = Some(temp_rec);
                },
                None => {
                    proof {
                        if hit_record is Some {
                            let rec = hit_record->Some_0;
                            assert forall|j: int, t: Ratio|
                                0 <= j < i + 1 && t.wf() && interval.contains(t) && ratio_lt(
                                    t,
                                    rec.t,
                                ) implies !#[trigger] self@[j].hits_at(*ray, t) by {
                                if j == i {
                                    assert(sub.contains(t));
                                }
                            }
                        } else {
                            assert forall|j: int, t: Ratio|
                                0 <= j < i + 1 && t.wf() && interval.contains(t)
                                    implies !#[trigger] self@[j].hits_at(*ray, t) by {
                                if j == i {
                                    assert(sub.contains(t));
                                }
                            }
                        }
                    }
                },
            }
            i = i + 1;
        }
        hit_record
    }

    /// The surrounding box of all members' boxes; none when there is no
    /// member or a member has none.
    fn bounding_box(&self) -> (r: Option<AABB>) {
        if self.len() == 0 {
            return None;
        }
        let mut output_box: Option<AABB> = None;
        let mut i: usize = 0;
        while i < self.len()
            invariant
                i <= self.len(),
                i == 0 ==> output_box is None,
                i > 0 ==> output_box == bounds_upto::<H>(self@, i as int) && output_box is Some,
            decreases self.len() - i,
        {
            match self[i].bounding_box() {
                Some(temp_box) => {
                    assert(Some(temp_box) == self@[i as int].bounds());
                    output_box = Some(
                        match output_box {
                            Some(b) => AABB::surrounding_box(b, temp_box),
                            None => temp_box,
                        },
                    );
                },
                None => {
                    proof {
                        lemma_bounds_upto_none::<H>(self@, self.len() as int, i as int);
                    }
                    return None;
                },
            }
            i = i + 1;
        }
        output_box
    }
}

} // verus!
