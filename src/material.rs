//! Colors, textures and the scattering rules of the materials. Random draws
//! are taken as arguments, so each rule is exact for every draw.
use vstd::prelude::*;
use crate::hittable::HitRecord;
use crate::ray::{Vec3, Ratio, Ray};

verus! {

/// A color as three exact channel factors.
#[derive(Clone, Copy, Debug, PartialEq, Eq, Structural)]
pub struct Color {
    pub r: Ratio,
    pub g: Ratio,
    pub b: Ratio,
}

pub open spec fn white() -> Color {
    Color {
        r: Ratio { num: 1, den: 1 },
        g: Ratio { num: 1, den: 1 },
        b: Ratio { num: 1, den: 1 },
    }
}

impl Color {
    pub fn new(r: Ratio, g: Ratio, b: Ratio) -> (c: Color)
        ensures
            c.r == r,
            c.g == g,
            c.b == b,
    {
        Color { r, g, b }
    }

    /// Full transmission on every channel.
    pub fn white() -> (c: Color)
        ensures
            c == white(),
    {
        Color { r: Ratio::new(1, 1), g: Ratio::new(1, 1), b: Ratio::new(1, 1) }
    }
}

/// A color that depends on surface coordinates and the point.
pub trait Texture {
    spec fn color_at(&self, u: Ratio, v: Ratio, p: Vec3) -> Color;

    fn value(&self, u: Ratio, v: Ratio, p: Vec3) -> (r: Color)
        ensures
            r == self.color_at(u, v, p),
    ;
}

/// The same color everywhere.
pub struct SolidColor {
    pub color: Color,
}

impl SolidColor {
    pub fn new(color: Color) -> (r: SolidColor)
        ensures
            r.color == color,
    {
        SolidColor { color }
    }
}

impl Texture for SolidColor {
    open spec fn color_at(&self, u: Ratio, v: Ratio, p: Vec3) -> Color {
        self.color
    }

    fn value(&self, u: Ratio, v: Ratio, p: Vec3) -> (r: Color) {
        self.color
    }
}

/// Every component lies within `i32`.
pub open spec fn fits_i32(x: int, y: int, z: int) -> bool {
    &&& i32::MIN <= x <= i32::MAX
    &&& i32::MIN <= y <= i32::MAX
    &&& i32::MIN <= z <= i32::MAX
}

/// Ideal diffuse reflection.
pub struct Lambertian<T> {
    pub albedo: T,
}

/// The diffuse direction: the normal plus the random unit vector, or the
/// bare normal when the sum vanishes.
pub open spec fn diffuse_direction(normal: Vec3, random_unit: Vec3) -> Vec3 {
    let s = Vec3 {
        x: (normal.x + random_unit.x) as i32,
        y: (normal.y + random_unit.y) as i32,
        z: (normal.z + random_unit.z) as i32,
    };
    if s.is_zero() {
        normal
    } else {
        s
    }
}

impl<T: Texture> Lambertian<T> {
    pub fn new(albedo: T) -> (r: Self)
        ensures
            r.albedo == albedo,
    {
        Lambertian { albedo }
    }

    /// Scatters from the hit point along the normal plus `random_unit`, a
    /// random unit vector; always scatters, tinted by the texture there.
    pub fn scatter<M>(&self, ray_in: &Ray, rec: &HitRecord<M>, random_unit: Vec3) -> (r: Option<
        (Ray, Color),
    >)
        requires
            fits_i32(
                rec.normal.x + random_unit.x,
                rec.normal.y + random_unit.y,
                rec.normal.z + random_unit.z,
            ),
        ensures
            r is Some,
            r->Some_0.0.origin == rec.point,
            r->Some_0.0.direction == diffuse_direction(rec.normal, random_unit),
            r->Some_0.1 == self.albedo.color_at(rec.u, rec.v, rec.point),
            !rec.normal.is_zero() ==> !r->Some_0.0.direction.is_zero(),
    {
        let mut scatter_direction = Vec3::new(
            rec.normal.x + random_unit.x,
            rec.normal.y + random_unit.y,
            rec.normal.z + random_unit.z,
        );
        if scatter_direction.x == 0 && scatter_direction.y == 0 && scatter_direction.z == 0 {
            scatter_direction = rec.normal;
        }
        let scattered = Ray::new(rec.point, scatter_direction);
        let attenuation = self.albedo.value(rec.u, rec.v, rec.point);
        Some((scattered, attenuation))
    }
}

/// Component `a` of the mirror image of `v` about the normal `n`, scaled by
/// `n . n` so that it stays on the lattice (exact for a unit normal).
pub open spec fn reflect_at(v: Vec3, n: Vec3, a: int) -> int {
    n.dot_spec(n) * v.at(a) - 2 * v.dot_spec(n) * n.at(a)
}

/// Component `a` of a metal's scattered direction: the reflection plus the
/// perturbation `p` weighted by the fuzz, scaled by the fuzz's denominator.
pub open spec fn metal_direction_at(fuzz: Ratio, v: Vec3, n: Vec3, p: Vec3, a: int) -> int {
    fuzz.den * reflect_at(v, n, a) + fuzz.num * p.at(a)
}

/// The fuzz kept within `[0, 1]`.
pub open spec fn clamp_unit(f: Ratio) -> Ratio {
    if f.num < 0 {
        Ratio { num: 0, den: 1 }
    } else if f.num > f.den {
        Ratio { num: 1, den: 1 }
    } else {
        f
    }
}

/// The reflection about `n`, met with `n`, gives back the incoming component
/// along `n` with its sign turned, scaled by `n . n`.
pub proof fn lemma_reflect_mirrors(v: Vec3, n: Vec3)
    ensures
        reflect_at(v, n, 0) * n.x + reflect_at(v, n, 1) * n.y + reflect_at(v, n, 2) * n.z == -(
        v.dot_spec(n) * n.dot_spec(n)),
{
    let (vx, vy, vz, nx, ny, nz) = (v.x as int, v.y as int, v.z as int, n.x as int, n.y as int,
        n.z as int);
    let nn = nx * nx + ny * ny + nz * nz;
    let vn = vx * nx + vy * ny + vz * nz;
    assert((nn * vx - 2 * vn * nx) * nx == nn * (vx * nx) - 2 * vn * (nx * nx))
        by (nonlinear_arith);
    assert((nn * vy - 2 * vn * ny) * ny == nn * (vy * ny) - 2 * vn * (ny * ny))
        by (nonlinear_arith);
    assert((nn * vz - 2 * vn * nz) * nz == nn * (vz * nz) - 2 * vn * (nz * nz))
        by (nonlinear_arith);
    assert(nn * (vx * nx) + nn * (vy * ny) + nn * (vz * nz) == nn * vn) by (nonlinear_arith)
        requires
            vn == vx * nx + vy * ny + vz * nz,
    ;
    assert(2 * vn * (nx * nx) + 2 * vn * (ny * ny) + 2 * vn * (nz * nz) == 2 * vn * nn)
        by (nonlinear_arith)
        requires
            nn == nx * nx + ny * ny + nz * nz,
    ;
    assert(nn * vn == vn * nn) by (nonlinear_arith);
    assert(2 * vn * nn == 2 * (vn * nn)) by (nonlinear_arith);
    assert(n.dot_spec(n) == nn && v.dot_spec(n) == vn);
    assert(reflect_at(v, n, 0) == nn * vx - 2 * vn * nx);
    assert(reflect_at(v, n, 1) == nn * vy - 2 * vn * ny);
    assert(reflect_at(v, n, 2) == nn * vz - 2 * vn * nz);
}

proof fn lemma_bounded_product(x: int, y: int, bx: int, by: int)
    requires
        -bx <= x <= bx,
        -by <= y <= by,
    ensures
        -(bx * by) <= x * y <= bx * by,
{
    assert(-(bx * by) <= x * y <= bx * by) by (nonlinear_arith)
        requires
            -bx <= x <= bx,
            -by <= y <= by,
    ;
}

/// Specular reflection, blurred by a fuzz in `[0, 1]`.
pub struct Metal<T> {
    pub albedo: T,
    pub fuzz: Ratio,
}

impl<T: Texture> Metal<T> {
    pub fn new(albedo: T, fuzz: Ratio) -> (r: Self)
        requires
            fuzz.wf(),
        ensures
            r.albedo == albedo,
            r.fuzz == clamp_unit(fuzz),
            r.fuzz.wf(),
    {
        let fuzz = if fuzz.num < 0 {
            Ratio::new(0, 1)
        } else if fuzz.num > fuzz.den {
            Ratio::new(1, 1)
        } else {
            fuzz
        };
        Metal { albedo, fuzz }
    }

    /// Reflects the incoming direction about the normal and adds `fuzz`
    /// times `random_in_sphere`, a random point of the ball as wide as the
    /// reflection; absorbs the ray when the result does not leave the surface.
    pub fn scatter<M>(&self, ray_in: &Ray, rec: &HitRecord<M>, random_in_sphere: Vec3) -> (r:
        Option<(Ray, Color)>)
        requires
            self.fuzz.wf(),
            fits_i32(
                reflect_at(ray_in.direction, rec.normal, 0),
                reflect_at(ray_in.direction, rec.normal, 1),
                reflect_at(ray_in.direction, rec.normal, 2),
            ),
            fits_i32(
                metal_direction_at(self.fuzz, ray_in.direction, rec.normal, random_in_sphere, 0),
                metal_direction_at(self.fuzz, ray_in.direction, rec.normal, random_in_sphere, 1),
                metal_direction_at(self.fuzz, ray_in.direction, rec.normal, random_in_sphere, 2),
            ),
        ensures
            ({
                let d = |a: int|
                    metal_direction_at(self.fuzz, ray_in.direction, rec.normal, random_in_sphere, a);
                r is Some <==> d(0) * rec.normal.x + d(1) * rec.normal.y + d(2) * rec.normal.z > 0
            }),
            r is Some ==> {
                let (ray, color) = r->Some_0;
                &&& ray.origin == rec.point
                &&& ray.direction.x == metal_direction_at(
                    self.fuzz,
                    ray_in.direction,
                    rec.normal,
                    random_in_sphere,
                    0,
                )
                &&& ray.direction.y == metal_direction_at(
                    self.fuzz,
                    ray_in.direction,
                    rec.normal,
                    random_in_sphere,
                    1,
                )
                &&& ray.direction.z == metal_direction_at(
                    self.fuzz,
                    ray_in.direction,
                    rec.normal,
                    random_in_sphere,
                    2,
                )
                &&& color == self.albedo.color_at(rec.u, rec.v, rec.point)
            },
    {
        let reflected = reflect(&ray_in.direction, &rec.normal);
        let fd = self.fuzz.den as i128;
        let fnum = self.fuzz.num as i128;
        proof {
            let (fdi, fni) = (fd as int, fnum as int);
            lemma_bounded_product(fdi, reflected.x as int, 0x8000_0000_0000_0000, 0x8000_0000);
            lemma_bounded_product(fdi, reflected.y as int, 0x8000_0000_0000_0000, 0x8000_0000);
            lemma_bounded_product(fdi, reflected.z as int, 0x8000_0000_0000_0000, 0x8000_0000);
            lemma_bounded_product(fni, random_in_sphere.x as int, 0x8000_0000_0000_0000, 0x8000_0000);
            lemma_bounded_product(fni, random_in_sphere.y as int, 0x8000_0000_0000_0000, 0x8000_0000);
            lemma_bounded_product(fni, random_in_sphere.z as int, 0x8000_0000_0000_0000, 0x8000_0000);
        }
        let dx = fd * reflected.x as i128 + fnum * random_in_sphere.x as i128;
        let dy = fd * reflected.y as i128 + fnum * random_in_sphere.y as i128;
        let dz = fd * reflected.z as i128 + fnum * random_in_sphere.z as i128;
        let scattered = Ray::new(rec.point, Vec3::new(dx as i32, dy as i32, dz as i32));
        let attenuation = self.albedo.value(rec.u, rec.v, rec.point);
        if scattered.direction.dot(&rec.normal) > 0 {
            Some((scattered, attenuation))
        } else {
            None
        }
    }
}

/// The mirror image of `v` about `n`, scaled by `n . n`.
fn reflect(v: &Vec3, n: &Vec3) -> (r: Vec3)
    requires
        fits_i32(reflect_at(*v, *n, 0), reflect_at(*v, *n, 1), reflect_at(*v, *n, 2)),
    ensures
        r.x == reflect_at(*v, *n, 0),
        r.y == reflect_at(*v, *n, 1),
        r.z == reflect_at(*v, *n, 2),
{
    let nn = n.dot(n);
    let vn = v.dot(n);
    proof {
        // each dot product of lattice vectors stays below 2^64 in size
        assert(-0x1_0000_0000_0000_0000 <= nn <= 0x1_0000_0000_0000_0000);
        assert(-0x1_0000_0000_0000_0000 <= vn <= 0x1_0000_0000_0000_0000);
        lemma_bounded_product(nn as int, v.x as int, 0x1_0000_0000_0000_0000, 0x8000_0000);
        lemma_bounded_product(nn as int, v.y as int, 0x1_0000_0000_0000_0000, 0x8000_0000);
        lemma_bounded_product(nn as int, v.z as int, 0x1_0000_0000_0000_0000, 0x8000_0000);
        lemma_bounded_product(2 * vn as int, n.x as int, 0x2_0000_0000_0000_0000, 0x8000_0000);
        lemma_bounded_product(2 * vn as int, n.y as int, 0x2_0000_0000_0000_0000, 0x8000_0000);
        lemma_bounded_product(2 * vn as int, n.z as int, 0x2_0000_0000_0000_0000, 0x8000_0000);
    }
    let x = nn * v.x as i128 - 2 * vn * n.x as i128;
    let y = nn * v.y as i128 - 2 * vn * n.y as i128;
    let z = nn * v.z as i128 - 2 * vn * n.z as i128;
    Vec3::new(x as i32, y as i32, z as i32)
}

/// A metal without fuzz is a perfect mirror: its scattered direction meets
/// the normal exactly as the reversed incoming direction does, scaled by
/// `n . n` and the fuzz's denominator (so exactly, for a unit normal and a
/// fuzz written `0 / 1`).
pub proof fn lemma_sharp_metal_mirrors(fuzz: Ratio, v: Vec3, n: Vec3, p: Vec3)
    requires
        fuzz.num == 0,
    ensures
        metal_direction_at(fuzz, v, n, p, 0) * n.x + metal_direction_at(fuzz, v, n, p, 1) * n.y
            + metal_direction_at(fuzz, v, n, p, 2) * n.z == fuzz.den * n.dot_spec(n) * (-(
        v.dot_spec(n))),
{
    lemma_reflect_mirrors(v, n);
    let (d, r0, r1, r2, nx, ny, nz) = (fuzz.den as int, reflect_at(v, n, 0), reflect_at(v, n, 1),
        reflect_at(v, n, 2), n.x as int, n.y as int, n.z as int);
    let (nn, vn) = (n.dot_spec(n), v.dot_spec(n));
    assert((d * r0) * nx == d * (r0 * nx)) by (nonlinear_arith);
    assert((d * r1) * ny == d * (r1 * ny)) by (nonlinear_arith);
    assert((d * r2) * nz == d * (r2 * nz)) by (nonlinear_arith);
    assert(d * (r0 * nx) + d * (r1 * ny) + d * (r2 * nz) == d * (r0 * nx + r1 * ny + r2 * nz))
        by (nonlinear_arith);
    assert(d * (-(vn * nn)) == d * nn * (-vn)) by (nonlinear_arith);
}

/// A refractive material such as glass.
pub struct Dielectric {
    pub index_of_refraction: Ratio,
}

impl Dielectric {
    pub fn new(index_of_refraction: Ratio) -> (r: Dielectric)
        ensures
            r.index_of_refraction == index_of_refraction,
    {
        Dielectric { index_of_refraction }
    }

    /// The ratio of indices across the boundary: `1 / ior` entering through
    /// the front face, `ior` leaving.
    pub fn refraction_ratio(&self, front_face: bool) -> (r: Ratio)
        requires
            self.index_of_refraction.num > 0,
            self.index_of_refraction.den > 0,
        ensures
            r.wf(),
            front_face ==> r == (Ratio {
                num: self.index_of_refraction.den,
                den: self.index_of_refraction.num,
            }),
            !front_face ==> r == self.index_of_refraction,
    {
        if front_face {
            Ratio::new(self.index_of_refraction.den, self.index_of_refraction.num)
        } else {
            self.index_of_refraction
        }
    }

    /// Attenuation: full transmission, never a tint.
    pub fn attenuation(&self) -> (c: Color)
        ensures
            c == white(),
    {
        Color::white()
    }
}

} // verus!
