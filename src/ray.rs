//! Vectors, exact ray parameters, parameter intervals and rays.
use vstd::prelude::*;

verus! {

/// A lattice vector or point.
#[derive(Clone, Copy, Debug, PartialEq, Eq, Structural)]
pub struct Vec3 {
    pub x: i32,
    pub y: i32,
    pub z: i32,
}

impl Vec3 {
    pub fn new(x: i32, y: i32, z: i32) -> (r: Vec3)
        ensures
            r.x == x,
            r.y == y,
            r.z == z,
    {
        Vec3 { x, y, z }
    }

    /// Component along axis `a` (0, 1 or 2).
    pub open spec fn at(self, a: int) -> int {
        if a == 0 {
            self.x as int
        } else if a == 1 {
            self.y as int
        } else {
            self.z as int
        }
    }

    pub fn get(&self, a: usize) -> (r: i32)
        requires
            a < 3,
        ensures
            r == self.at(a as int),
    {
        if a == 0 {
            self.x
        } else if a == 1 {
            self.y
        } else {
            self.z
        }
    }

    pub open spec fn dot_spec(self, o: Vec3) -> int {
        self.x * o.x + self.y * o.y + self.z * o.z
    }

    pub fn dot(&self, o: &Vec3) -> (r: i128)
        ensures
            r == self.dot_spec(*o),
            -0xC000_0000_0000_0000 <= r <= 0xC000_0000_0000_0000,
    {
        proof {
            lemma_i32_product(self.x as int, o.x as int);
            lemma_i32_product(self.y as int, o.y as int);
            lemma_i32_product(self.z as int, o.z as int);
        }
        let a = self.x as i128 * o.x as i128;
        let b = self.y as i128 * o.y as i128;
        let c = self.z as i128 * o.z as i128;
        a + b + c
    }

    pub open spec fn is_zero(self) -> bool {
        self.x == 0 && self.y == 0 && self.z == 0
    }
}

/// An exact ray parameter `num / den`, with `den > 0` when well formed.
#[derive(Clone, Copy, Debug, PartialEq, Eq, Structural)]
pub struct Ratio {
    pub num: i64,
    pub den: i64,
}

/// `a < b` as rationals with positive denominators.
pub open spec fn ratio_lt(a: Ratio, b: Ratio) -> bool {
    a.num * b.den < b.num * a.den
}

/// `a <= b` as rationals with positive denominators.
pub open spec fn ratio_le(a: Ratio, b: Ratio) -> bool {
    a.num * b.den <= b.num * a.den
}

pub proof fn lemma_lt_le_trans(a: Ratio, b: Ratio, c: Ratio)
    requires
        a.wf(),
        b.wf(),
        c.wf(),
        ratio_lt(a, b),
        ratio_le(b, c),
    ensures
        ratio_lt(a, c),
{
    let (an, ad, bn, bd, cn, cd) = (a.num as int, a.den as int, b.num as int, b.den as int,
        c.num as int, c.den as int);
    assert(an * cd < cn * ad) by (nonlinear_arith)
        requires
            ad > 0,
            bd > 0,
            cd > 0,
            an * bd < bn * ad,
            bn * cd <= cn * bd,
    {
        assert(an * bd * cd < bn * ad * cd);
        assert(bn * cd * ad <= cn * bd * ad);
        assert(an * cd * bd < cn * ad * bd);
    }
}

pub proof fn lemma_le_lt_trans(a: Ratio, b: Ratio, c: Ratio)
    requires
        a.wf(),
        b.wf(),
        c.wf(),
        ratio_le(a, b),
        ratio_lt(b, c),
    ensures
        ratio_lt(a, c),
{
    let (an, ad, bn, bd, cn, cd) = (a.num as int, a.den as int, b.num as int, b.den as int,
        c.num as int, c.den as int);
    assert(an * cd < cn * ad) by (nonlinear_arith)
        requires
            ad > 0,
            bd > 0,
            cd > 0,
            an * bd <= bn * ad,
            bn * cd < cn * bd,
    {
        assert(an * bd * cd <= bn * ad * cd);
        assert(bn * cd * ad < cn * bd * ad);
        assert(an * cd * bd < cn * ad * bd);
    }
}

pub proof fn lemma_le_le_trans(a: Ratio, b: Ratio, c: Ratio)
    requires
        a.wf(),
        b.wf(),
        c.wf(),
        ratio_le(a, b),
        ratio_le(b, c),
    ensures
        ratio_le(a, c),
{
    let (an, ad, bn, bd, cn, cd) = (a.num as int, a.den as int, b.num as int, b.den as int,
        c.num as int, c.den as int);
    assert(an * cd <= cn * ad) by (nonlinear_arith)
        requires
            ad > 0,
            bd > 0,
            cd > 0,
            an * bd <= bn * ad,
            bn * cd <= cn * bd,
    {
        assert(an * bd * cd <= bn * ad * cd);
        assert(bn * cd * ad <= cn * bd * ad);
        assert(an * cd * bd <= cn * ad * bd);
    }
}

/// `a` and `b` are the same rational number.
pub open spec fn ratio_eq(a: Ratio, b: Ratio) -> bool {
    a.num * b.den == b.num * a.den
}

/// Comparisons and the scaled points of a ray do not depend on how a
/// parameter is written.
pub proof fn lemma_same_value(a: Ratio, b: Ratio, c: Ratio)
    requires
        a.wf(),
        b.wf(),
        c.wf(),
        ratio_eq(a, b),
    ensures
        ratio_lt(c, a) == ratio_lt(c, b),
        ratio_le(c, a) == ratio_le(c, b),
        ratio_lt(a, c) == ratio_lt(b, c),
        ratio_le(a, c) == ratio_le(b, c),
{
    let (an, ad, bn, bd, cn, cd) = (a.num as int, a.den as int, b.num as int, b.den as int,
        c.num as int, c.den as int);
    assert((cn * ad < an * cd) == (cn * bd < bn * cd)) by (nonlinear_arith)
        requires
            ad > 0,
            bd > 0,
            cd > 0,
            an * bd == bn * ad,
    {
        assert(cn * ad * bd == cn * bd * ad);
        assert(an * cd * bd == bn * cd * ad);
        if cn * ad < an * cd {
            assert(cn * ad * bd < an * cd * bd);
        }
        if cn * bd < bn * cd {
            assert(cn * bd * ad < bn * cd * ad);
        }
    }
    assert((cn * ad <= an * cd) == (cn * bd <= bn * cd)) by (nonlinear_arith)
        requires
            ad > 0,
            bd > 0,
            cd > 0,
            an * bd == bn * ad,
    {
        assert(cn * ad * bd == cn * bd * ad);
        assert(an * cd * bd == bn * cd * ad);
        if cn * ad <= an * cd {
            assert(cn * ad * bd <= an * cd * bd);
        }
        if cn * bd <= bn * cd {
            assert(cn * bd * ad <= bn * cd * ad);
        }
    }
    assert((an * cd < cn * ad) == (bn * cd < cn * bd)) by (nonlinear_arith)
        requires
            ad > 0,
            bd > 0,
            cd > 0,
            an * bd == bn * ad,
    {
        assert(cn * ad * bd == cn * bd * ad);
        assert(an * cd * bd == bn * cd * ad);
        if an * cd < cn * ad {
            assert(an * cd * bd < cn * ad * bd);
        }
        if bn * cd < cn * bd {
            assert(bn * cd * ad < cn * bd * ad);
        }
    }
    assert((an * cd <= cn * ad) == (bn * cd <= cn * bd)) by (nonlinear_arith)
        requires
            ad > 0,
            bd > 0,
            cd > 0,
            an * bd == bn * ad,
    {
        assert(cn * ad * bd == cn * bd * ad);
        assert(an * cd * bd == bn * cd * ad);
        if an * cd <= cn * ad {
            assert(an * cd * bd <= cn * ad * bd);
        }
        if bn * cd <= cn * bd {
            assert(bn * cd * ad <= cn * bd * ad);
        }
    }
}

impl Ratio {
    pub open spec fn wf(self) -> bool {
        self.den > 0
    }

    pub fn new(num: i64, den: i64) -> (r: Ratio)
        requires
            den > 0,
        ensures
            r.num == num,
            r.den == den,
    {
        Ratio { num, den }
    }

    pub fn lt(&self, o: &Ratio) -> (r: bool)
        ensures
            r == ratio_lt(*self, *o),
    {
        proof {
            lemma_i64_product(self.num as int, o.den as int);
            lemma_i64_product(o.num as int, self.den as int);
        }
        let a = self.num as i128 * o.den as i128;
        let b = o.num as i128 * self.den as i128;
        a < b
    }

    pub fn le(&self, o: &Ratio) -> (r: bool)
        ensures
            r == ratio_le(*self, *o),
    {
        proof {
            lemma_i64_product(self.num as int, o.den as int);
            lemma_i64_product(o.num as int, self.den as int);
        }
        let a = self.num as i128 * o.den as i128;
        let b = o.num as i128 * self.den as i128;
        a <= b
    }
}

proof fn lemma_i32_product(x: int, y: int)
    requires
        i32::MIN <= x <= i32::MAX,
        i32::MIN <= y <= i32::MAX,
    ensures
        -0x4000_0000_0000_0000 <= x * y <= 0x4000_0000_0000_0000,
{
    assert(-0x4000_0000_0000_0000 <= x * y <= 0x4000_0000_0000_0000) by (nonlinear_arith)
        requires
            -0x8000_0000 <= x <= 0x8000_0000,
            -0x8000_0000 <= y <= 0x8000_0000,
    {
        assert(x * y <= 0x8000_0000 * 0x8000_0000);
        assert(x * y >= -(0x8000_0000 * 0x8000_0000));
    }
}

proof fn lemma_i64_product(x: int, y: int)
    requires
        i64::MIN <= x <= i64::MAX,
        i64::MIN <= y <= i64::MAX,
    ensures
        i128::MIN <= x * y <= i128::MAX,
{
    assert(-0x4000_0000_0000_0000_0000_0000_0000_0000 <= x * y <= 0x4000_0000_0000_0000_0000_0000_0000_0000)
        by (nonlinear_arith)
        requires
            -0x8000_0000_0000_0000 <= x <= 0x8000_0000_0000_0000,
            -0x8000_0000_0000_0000 <= y <= 0x8000_0000_0000_0000,
    {
        assert(x * y <= 0x8000_0000_0000_0000 * 0x8000_0000_0000_0000);
        assert(x * y >= -(0x8000_0000_0000_0000 * 0x8000_0000_0000_0000));
    }
}

/// `a / b` rounded down.
pub fn floor_div(a: i128, b: i128) -> (r: i128)
    requires
        b > 0,
    ensures
        r == a / b,
{
    if a >= 0 {
        a / b
    } else {
        let q = (-(a + 1)) / b;
        proof {
            let (x, d) = ((-a - 1) as int, b as int);
            vstd::arithmetic::div_mod::lemma_fundamental_div_mod(x, d);
            let rem = x % d;
            assert(0 <= rem < d);
            assert(a as int == (-(q as int) - 1) * d + (d - rem - 1)) by (nonlinear_arith)
                requires
                    x == d * (q as int) + rem,
                    x == -(a as int) - 1,
            ;
            vstd::arithmetic::div_mod::lemma_fundamental_div_mod_converse(
                a as int,
                d,
                -(q as int) - 1,
                d - rem - 1,
            );
        }
        -q - 1
    }
}

/// The half-open parameter interval `[start, end)`; `end == None` leaves it
/// unbounded above.
#[derive(Clone, Copy, Debug, PartialEq, Eq, Structural)]
pub struct Interval {
    pub start: Ratio,
    pub end: Option<Ratio>,
}

/// `t` lies before the (possibly unbounded) end `e`.
pub open spec fn before_end(t: Ratio, e: Option<Ratio>) -> bool {
    match e {
        Some(e) => ratio_lt(t, e),
        None => true,
    }
}

impl Interval {
    pub open spec fn wf(self) -> bool {
        self.start.wf() && match self.end {
            Some(e) => e.wf(),
            None => true,
        }
    }

    pub open spec fn contains(self, t: Ratio) -> bool {
        ratio_le(self.start, t) && before_end(t, self.end)
    }

    pub fn new(start: Ratio, end: Option<Ratio>) -> (r: Interval)
        ensures
            r.start == start,
            r.end == end,
    {
        Interval { start, end }
    }

    pub fn includes(&self, t: &Ratio) -> (r: bool)
        ensures
            r == self.contains(*t),
    {
        if !self.start.le(t) {
            return false;
        }
        match &self.end {
            Some(e) => t.lt(e),
            None => true,
        }
    }
}

/// A ray `origin + t * direction`.
#[derive(Clone, Copy, Debug, PartialEq, Eq, Structural)]
pub struct Ray {
    pub origin: Vec3,
    pub direction: Vec3,
}

impl Ray {
    pub fn new(origin: Vec3, direction: Vec3) -> (r: Ray)
        ensures
            r.origin == origin,
            r.direction == direction,
    {
        Ray { origin, direction }
    }

    /// The coordinate along axis `a` of the point at parameter `t`, scaled by
    /// `t.den`.
    pub open spec fn scaled_at(self, t: Ratio, a: int) -> int {
        self.origin.at(a) * t.den + t.num * self.direction.at(a)
    }
}

} // verus!
