use raytracer::aabb::AABB;
use raytracer::bvh::{Bvh, BvhNode};
use raytracer::hittable::{HitRecord, Hittable};
use raytracer::material::{Color, Dielectric, Lambertian, Metal, SolidColor};
use raytracer::ray::{floor_div, Interval, Ratio, Ray, Vec3};
use raytracer::rect::XyRect;
use raytracer::scene::Scene;

fn v(x: i32, y: i32, z: i32) -> Vec3 {
    Vec3::new(x, y, z)
}

fn r(num: i64, den: i64) -> Ratio {
    Ratio::new(num, den)
}

fn from(start: Ratio) -> Interval {
    Interval::new(start, None)
}

fn between(start: Ratio, end: Ratio) -> Interval {
    Interval::new(start, Some(end))
}

fn same(a: Ratio, b: Ratio) -> bool {
    a.num as i128 * b.den as i128 == b.num as i128 * a.den as i128
}

fn cube() -> AABB {
    AABB::new(v(0, 0, 0), v(10, 10, 10))
}

fn rect(x0: i32, x1: i32, y0: i32, y1: i32, k: i32, id: u8) -> XyRect<u8> {
    XyRect::new(x0, x1, y0, y1, k, id)
}

fn record(normal: Vec3) -> HitRecord<u8> {
    HitRecord::new(r(1, 1), v(0, 0, 0), normal, r(0, 1), r(0, 1), true, 0)
}

#[test]
fn box_hit_up_to_an_inner_point() {
    // the ray passes (5, 5, 5) at t = 10, enters at t = 5 and leaves at t = 15
    let ray = Ray::new(v(-5, 5, 5), v(1, 0, 0));
    assert!(cube().hit(&ray, &between(r(0, 1), r(11, 1))));
    assert!(cube().hit(&ray, &between(r(0, 1), r(21, 2))));
    assert!(!cube().hit(&ray, &between(r(0, 1), r(5, 1))));
    assert!(cube().hit(&ray, &from(r(14, 1))));
    assert!(!cube().hit(&ray, &from(r(16, 1))));
    assert!(!cube().hit(&ray, &from(r(31, 2))));
}

#[test]
fn box_hit_with_zero_direction_components() {
    let inside = Ray::new(v(5, 5, -20), v(0, 0, 1));
    assert!(cube().hit(&inside, &from(r(0, 1))));
    let on_face = Ray::new(v(0, 10, -20), v(0, 0, 1));
    assert!(cube().hit(&on_face, &from(r(0, 1))));
    let beside = Ray::new(v(11, 5, -20), v(0, 0, 1));
    assert!(!cube().hit(&beside, &from(r(0, 1))));
    let backwards = Ray::new(v(5, 5, -20), v(0, 0, -1));
    assert!(!cube().hit(&backwards, &from(r(0, 1))));
}

#[test]
fn box_hit_empty_interval_misses() {
    let ray = Ray::new(v(5, 5, 5), v(1, 1, 1));
    assert!(!cube().hit(&ray, &between(r(2, 1), r(2, 1))));
    assert!(!cube().hit(&ray, &between(r(3, 1), r(1, 1))));
    assert!(cube().hit(&ray, &between(r(1, 1), r(3, 1))));
}

#[test]
fn box_hit_negative_direction() {
    let ray = Ray::new(v(5, 5, 30), v(0, 0, -2));
    // enters at t = 10, leaves at t = 15
    assert!(cube().hit(&ray, &between(r(0, 1), r(21, 2))));
    assert!(!cube().hit(&ray, &between(r(0, 1), r(10, 1))));
    assert!(!cube().hit(&ray, &from(r(15, 1))));
}

#[test]
fn surrounding_box_commutes_and_encloses() {
    let a = AABB::new(v(0, -3, 2), v(4, 1, 9));
    let b = AABB::new(v(-2, 0, 5), v(3, 7, 6));
    let ab = AABB::surrounding_box(a, b);
    let ba = AABB::surrounding_box(b, a);
    assert_eq!(ab, ba);
    assert_eq!(ab, AABB::new(v(-2, -3, 2), v(4, 7, 9)));
}

#[test]
fn face_normal_turns_against_the_ray() {
    let mut rec = record(v(0, 0, 0));
    rec.set_face_normal(&Ray::new(v(0, 0, 0), v(0, 0, -1)), v(0, 0, 1));
    assert!(rec.front_face);
    assert_eq!(rec.normal, v(0, 0, 1));
    rec.set_face_normal(&Ray::new(v(0, 0, -5), v(0, 0, 1)), v(0, 0, 1));
    assert!(!rec.front_face);
    assert_eq!(rec.normal, v(0, 0, -1));
}

#[test]
fn rect_hit_in_front_of_the_origin() {
    let target = rect(-1, 1, -1, 1, -2, 7);
    let ray = Ray::new(v(0, 0, 0), v(0, 0, -1));
    let rec = target.hit(&ray, &from(r(1, 1000))).unwrap();
    assert!(same(rec.t, r(2, 1)));
    assert_eq!(rec.point, v(0, 0, -2));
    assert_eq!(rec.normal, v(0, 0, 1));
    assert!(rec.front_face);
    assert_eq!(rec.material, 7);
    assert!(same(rec.u, r(1, 2)));
    assert!(same(rec.v, r(1, 2)));
}

#[test]
fn rect_missed_outside_or_out_of_interval() {
    let target = rect(-1, 1, -1, 1, -2, 0);
    let aside = Ray::new(v(5, 0, 0), v(0, 0, -1));
    assert!(target.hit(&aside, &from(r(0, 1))).is_none());
    let ray = Ray::new(v(0, 0, 0), v(0, 0, -1));
    assert!(target.hit(&ray, &between(r(0, 1), r(2, 1))).is_none());
    let parallel = Ray::new(v(0, 0, 0), v(1, 0, 0));
    assert!(target.hit(&parallel, &from(r(0, 1))).is_none());
}

#[test]
fn rect_point_rounds_down() {
    let target = rect(-10, 10, -10, 10, 0, 0);
    let ray = Ray::new(v(0, 0, 3), v(1, -1, -2));
    let rec = target.hit(&ray, &from(r(0, 1))).unwrap();
    assert!(same(rec.t, r(3, 2)));
    assert_eq!(rec.point, v(1, -2, 0));
    assert!(rec.front_face);
    assert_eq!(rec.normal, v(0, 0, 1));
}

#[test]
fn flat_collection_returns_the_nearest_hit() {
    let scene = vec![rect(-1, 1, -1, 1, -5, 1), rect(-1, 1, -1, 1, -2, 2)];
    let ray = Ray::new(v(0, 0, 0), v(0, 0, -1));
    let rec = scene.hit(&ray, &from(r(0, 1))).unwrap();
    assert!(same(rec.t, r(2, 1)));
    assert_eq!(rec.material, 2);
    let later = scene.hit(&ray, &from(r(3, 1))).unwrap();
    assert!(same(later.t, r(5, 1)));
    assert_eq!(later.material, 1);
    assert!(scene.hit(&ray, &from(r(6, 1))).is_none());
}

#[test]
fn flat_collection_bounding_box() {
    let scene = vec![rect(0, 2, 0, 2, 0, 0), rect(5, 6, -3, 1, 4, 0)];
    assert_eq!(scene.bounding_box(), Some(AABB::new(v(-1, -4, -1), v(7, 3, 5))));
    let empty: Vec<XyRect<u8>> = Vec::new();
    assert_eq!(empty.bounding_box(), None);
    let unbounded = vec![rect(0, 2, 0, 2, 0, 0), rect(i32::MIN, 0, 0, 1, 0, 0)];
    assert_eq!(unbounded.bounding_box(), None);
}

#[test]
fn bvh_over_two_disjoint_rects() {
    let a = rect(0, 1, 0, 1, 0, 0);
    let b = rect(10, 11, 10, 11, 0, 1);
    let union = AABB::surrounding_box(a.bounding_box().unwrap(), b.bounding_box().unwrap());
    let bvh = Bvh::new(vec![a, b]).unwrap();
    match bvh.root() {
        BvhNode::Branch { bbox, left, right } => {
            assert_eq!(*bbox, union);
            let mut leaves = Vec::new();
            for child in [left, right] {
                match child.as_ref() {
                    BvhNode::Leaf(i) => leaves.push(*i),
                    BvhNode::Branch { .. } => panic!("expected a leaf"),
                }
            }
            leaves.sort();
            assert_eq!(leaves, vec![0, 1]);
        }
        BvhNode::Leaf(_) => panic!("expected one branch"),
    }
    assert_eq!(bvh.bounding_box(), Some(union));
}

#[test]
fn bvh_single_member_is_a_leaf() {
    let bvh = Bvh::new(vec![rect(0, 1, 0, 1, 0, 0)]).unwrap();
    assert!(matches!(bvh.root(), BvhNode::Leaf(0)));
}

#[test]
fn bvh_refused_for_member_without_box() {
    assert!(Bvh::new(vec![rect(0, 1, 0, 1, 0, 0), rect(0, 1, 0, i32::MAX, 0, 1)]).is_none());
}

fn stack() -> Vec<XyRect<u8>> {
    let mut objects = Vec::new();
    for i in 0..9 {
        let k = -2 - 3 * i;
        let x0 = (i % 3) * 4 - 6;
        objects.push(rect(x0, x0 + 5, -3 + i, 4, k, i as u8));
    }
    objects
}

#[test]
fn bvh_agrees_with_flat_scan() {
    let flat = stack();
    let bvh = Bvh::new(stack()).unwrap();
    let intervals = [from(r(0, 1)), from(r(7, 1)), between(r(1, 2), r(13, 1)), between(r(4, 1), r(4, 1))];
    for ox in -8..9 {
        for oy in -5..6 {
            for (dx, dy) in [(0, 0), (1, 0), (-1, 2), (3, -1)] {
                let ray = Ray::new(v(ox, oy, 1), v(dx, dy, -2));
                for iv in intervals.iter() {
                    let a = flat.hit(&ray, iv);
                    let b = bvh.hit(&ray, iv);
                    assert_eq!(a.is_some(), b.is_some());
                    if let (Some(a), Some(b)) = (a, b) {
                        assert!(same(a.t, b.t));
                    }
                }
            }
        }
    }
}

#[test]
fn scene_world_builds_one_hierarchy() {
    let world = Scene::world(stack()).unwrap();
    assert_eq!(world.objects().len(), 9);
    let ray = Ray::new(v(0, 0, 1), v(0, 0, -1));
    let rec = world.hit(&ray, &from(r(0, 1))).unwrap();
    assert!(same(rec.t, r(6, 1)));
    assert_eq!(rec.material, 1);
    assert!(Scene::world(vec![rect(i32::MIN, 0, 0, 1, 0, 0)]).is_none());
}

fn grey() -> SolidColor {
    SolidColor::new(Color::new(r(1, 2), r(1, 2), r(1, 2)))
}

#[test]
fn lambertian_always_scatters() {
    let mat = Lambertian::new(grey());
    let rec = record(v(0, 0, 1));
    let incoming = Ray::new(v(0, 0, 5), v(0, 0, -1));
    let (ray, color) = mat.scatter(&incoming, &rec, v(1, 0, 0)).unwrap();
    assert_eq!(ray.direction, v(1, 0, 1));
    assert_eq!(ray.origin, rec.point);
    assert_eq!(color, grey().color);
    // a draw opposite the normal falls back to the normal
    let (ray, _) = mat.scatter(&incoming, &rec, v(0, 0, -1)).unwrap();
    assert_eq!(ray.direction, v(0, 0, 1));
}

#[test]
fn metal_without_fuzz_mirrors() {
    let mat = Metal::new(grey(), r(0, 1));
    let rec = record(v(0, 0, 1));
    let incoming = Ray::new(v(-1, 0, 1), v(1, 0, -1));
    let (ray, color) = mat.scatter(&incoming, &rec, v(0, 1, 0)).unwrap();
    assert_eq!(ray.direction, v(1, 0, 1));
    assert_eq!(ray.direction.dot(&rec.normal), -incoming.direction.dot(&rec.normal));
    assert_eq!(color, grey().color);
}

#[test]
fn metal_fuzz_is_clamped() {
    assert_eq!(Metal::new(grey(), r(3, 2)).fuzz, r(1, 1));
    assert_eq!(Metal::new(grey(), r(-1, 2)).fuzz, r(0, 1));
    assert_eq!(Metal::new(grey(), r(1, 3)).fuzz, r(1, 3));
}

#[test]
fn metal_absorbs_below_the_surface() {
    let mat = Metal::new(grey(), r(1, 1));
    let rec = record(v(0, 0, 1));
    let incoming = Ray::new(v(-1, 0, 1), v(1, 0, -1));
    assert!(mat.scatter(&incoming, &rec, v(0, 0, -5)).is_none());
    let (ray, _) = mat.scatter(&incoming, &rec, v(0, 1, 0)).unwrap();
    assert_eq!(ray.direction, v(1, 1, 1));
}

#[test]
fn metal_scales_by_the_normal_length() {
    let mat = Metal::new(grey(), r(0, 1));
    let rec = record(v(0, 0, 2));
    let incoming = Ray::new(v(0, 0, 0), v(1, 0, -1));
    let (ray, _) = mat.scatter(&incoming, &rec, v(0, 0, 0)).unwrap();
    assert_eq!(ray.direction, v(4, 0, 4));
}

#[test]
fn dielectric_ratio_and_attenuation() {
    let glass = Dielectric::new(r(3, 2));
    assert_eq!(glass.refraction_ratio(true), r(2, 3));
    assert_eq!(glass.refraction_ratio(false), r(3, 2));
    assert_eq!(glass.attenuation(), Color::white());
    assert_eq!(Color::white(), Color::new(r(1, 1), r(1, 1), r(1, 1)));
}

#[test]
fn floor_division_rounds_down() {
    assert_eq!(floor_div(7, 2), 3);
    assert_eq!(floor_div(-3, 2), -2);
    assert_eq!(floor_div(-4, 2), -2);
    assert_eq!(floor_div(0, 5), 0);
}

#[test]
fn interval_and_ratio_comparisons() {
    assert!(r(1, 3).lt(&r(1, 2)));
    assert!(!r(2, 4).lt(&r(1, 2)));
    assert!(r(2, 4).le(&r(1, 2)));
    let iv = between(r(1, 2), r(3, 1));
    assert!(iv.includes(&r(1, 2)));
    assert!(!iv.includes(&r(3, 1)));
    assert!(from(r(0, 1)).includes(&r(1_000_000, 1)));
}
