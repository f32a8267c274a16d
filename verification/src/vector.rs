//! Integer vectors on the ground plane and in space.
use vstd::prelude::*;
use crate::fixed::{
    ceil_sqrt, floor_sqrt, is_floor_sqrt, isqrt, isqrt_up, lemma_ceil_sqrt,
    lemma_floor_sqrt_exists, lemma_square_monotone, scale_component, scale_toward_zero,
    COORD_LIMIT, SCALE,
};

verus! {

/// Largest absolute coordinate of a difference of two positions.
pub const SPAN_LIMIT: i64 = 2_000_000_000;

/// The absolute value of an integer.
pub open spec fn abs(v: int) -> int {
    if v >= 0 {
        v
    } else {
        -v
    }
}

/// A point or a displacement on the ground plane.
#[derive(Clone, Copy, Debug, PartialEq, Eq, Structural)]
pub struct Vec2 {
    pub x: i64,
    pub y: i64,
}

/// A point or a displacement in space; `y` is the height.
#[derive(Clone, Copy, Debug, PartialEq, Eq, Structural)]
pub struct Vec3 {
    pub x: i64,
    pub y: i64,
    pub z: i64,
}

/// A square is at least as large as the absolute value it was made from,
/// and the integer square root of a sum of squares dominates each part.
pub proof fn lemma_component_below_length(c: int, rest: int)
    requires
        0 <= rest,
    ensures
        abs(c) <= floor_sqrt(c * c + rest),
        0 <= c * c,
{
    assert(c * c == abs(c) * abs(c)) by (nonlinear_arith);
    assert(0 <= abs(c) * abs(c)) by (nonlinear_arith);
    let n = c * c + rest;
    lemma_floor_sqrt_exists(n);
    let r = floor_sqrt(n);
    if r < abs(c) {
        lemma_square_monotone(r + 1, abs(c));
    }
}

/// A square is never negative.
pub proof fn lemma_square_nonnegative(c: int)
    by (nonlinear_arith)
    ensures
        0 <= c * c,
{
}

impl Vec2 {
    /// Builds a vector from its coordinates.
    pub fn new(x: i64, y: i64) -> (v: Vec2)
        ensures
            v == (Vec2 { x, y }),
    {
        Vec2 { x, y }
    }

    /// Every coordinate lies in `-limit ..= limit`.
    pub open spec fn within(self, limit: int) -> bool {
        -limit <= self.x <= limit && -limit <= self.y <= limit
    }

    /// The squared Euclidean length.
    pub open spec fn norm_sq(self) -> int {
        self.x * self.x + self.y * self.y
    }

    /// The Euclidean length, rounded down.
    pub open spec fn norm(self) -> int {
        floor_sqrt(self.norm_sq())
    }

    /// The displacement that leads from `self` to `to`.
    pub open spec fn spec_to(self, to: Vec2) -> Vec2 {
        Vec2 { x: (to.x - self.x) as i64, y: (to.y - self.y) as i64 }
    }

    /// The displacement that leads from `self` to `to`.
    pub fn to(self, to: Vec2) -> (d: Vec2)
        requires
            self.within(COORD_LIMIT as int),
            to.within(COORD_LIMIT as int),
        ensures
            d == self.spec_to(to),
            d.x == to.x - self.x,
            d.y == to.y - self.y,
            d.within(SPAN_LIMIT as int),
    {
        Vec2 { x: to.x - self.x, y: to.y - self.y }
    }

    /// Computes the squared Euclidean length.
    pub fn length_squared(self) -> (r: u64)
        requires
            self.within(SPAN_LIMIT as int),
        ensures
            r == self.norm_sq(),
            r <= 8_000_000_000_000_000_000,
    {
        let x: i64 = self.x;
        let y: i64 = self.y;
        assert(0 <= x * x <= 4_000_000_000_000_000_000) by (nonlinear_arith)
            requires
                -2_000_000_000 <= x <= 2_000_000_000,
        ;
        assert(0 <= y * y <= 4_000_000_000_000_000_000) by (nonlinear_arith)
            requires
                -2_000_000_000 <= y <= 2_000_000_000,
        ;
        ((x * x) as u64) + ((y * y) as u64)
    }

    /// Computes the Euclidean length, rounded down.
    pub fn length(self) -> (r: u64)
        requires
            self.within(SPAN_LIMIT as int),
        ensures
            r == self.norm(),
            is_floor_sqrt(self.norm_sq(), r as int),
            abs(self.x as int) <= r,
            abs(self.y as int) <= r,
            r <= 0x1_0000_0000,
    {
        let r: u64 = isqrt(self.length_squared());
        proof {
            lemma_square_nonnegative(self.x as int);
            lemma_square_nonnegative(self.y as int);
            lemma_component_below_length(self.x as int, self.y * self.y);
            lemma_component_below_length(self.y as int, self.x * self.x);
        }
        r
    }
}

impl Vec3 {
    /// Builds a vector from its coordinates.
    pub fn new(x: i64, y: i64, z: i64) -> (v: Vec3)
        ensures
            v == (Vec3 { x, y, z }),
    {
        Vec3 { x, y, z }
    }

    /// Every coordinate lies in `-limit ..= limit`.
    pub open spec fn within(self, limit: int) -> bool {
        -limit <= self.x <= limit && -limit <= self.y <= limit && -limit <= self.z <= limit
    }

    /// The squared Euclidean length.
    pub open spec fn norm_sq(self) -> int {
        self.x * self.x + self.y * self.y + self.z * self.z
    }

    /// The ground-plane part: `x` stays `x`, the depth `z` becomes `y`.
    pub open spec fn spec_xz(self) -> Vec2 {
        Vec2 { x: self.x, y: self.z }
    }

    /// The ground-plane part: `x` stays `x`, the depth `z` becomes `y`.
    pub fn xz(self) -> (v: Vec2)
        ensures
            v == self.spec_xz(),
    {
        Vec2 { x: self.x, y: self.z }
    }

    /// The displacement that leads from `self` to `to`.
    pub open spec fn spec_to(self, to: Vec3) -> Vec3 {
        Vec3 { x: (to.x - self.x) as i64, y: (to.y - self.y) as i64, z: (to.z - self.z) as i64 }
    }

    /// The displacement that leads from `self` to `to`.
    pub fn to(self, to: Vec3) -> (d: Vec3)
        requires
            self.within(COORD_LIMIT as int),
            to.within(COORD_LIMIT as int),
        ensures
            d == self.spec_to(to),
            d.x == to.x - self.x,
            d.y == to.y - self.y,
            d.z == to.z - self.z,
            d.within(SPAN_LIMIT as int),
    {
        Vec3 { x: to.x - self.x, y: to.y - self.y, z: to.z - self.z }
    }

    /// The point reached from `self` by the displacement `d`.
    pub open spec fn spec_plus(self, d: Vec3) -> Vec3 {
        Vec3 { x: (self.x + d.x) as i64, y: (self.y + d.y) as i64, z: (self.z + d.z) as i64 }
    }

    /// The point reached from `self` by the displacement `d`.
    pub fn plus(self, d: Vec3) -> (p: Vec3)
        requires
            i64::MIN <= self.x + d.x <= i64::MAX,
            i64::MIN <= self.y + d.y <= i64::MAX,
            i64::MIN <= self.z + d.z <= i64::MAX,
        ensures
            p == self.spec_plus(d),
            p.x == self.x + d.x,
            p.y == self.y + d.y,
            p.z == self.z + d.z,
    {
        Vec3 { x: self.x + d.x, y: self.y + d.y, z: self.z + d.z }
    }

    /// Computes the squared Euclidean length.
    pub fn length_squared(self) -> (r: u64)
        requires
            self.within(SPAN_LIMIT as int),
        ensures
            r == self.norm_sq(),
            r <= 12_000_000_000_000_000_000,
    {
        let x: i64 = self.x;
        let y: i64 = self.y;
        let z: i64 = self.z;
        assert(0 <= x * x <= 4_000_000_000_000_000_000) by (nonlinear_arith)
            requires
                -2_000_000_000 <= x <= 2_000_000_000,
        ;
        assert(0 <= y * y <= 4_000_000_000_000_000_000) by (nonlinear_arith)
            requires
                -2_000_000_000 <= y <= 2_000_000_000,
        ;
        assert(0 <= z * z <= 4_000_000_000_000_000_000) by (nonlinear_arith)
            requires
                -2_000_000_000 <= z <= 2_000_000_000,
        ;
        ((x * x) as u64) + ((y * y) as u64) + ((z * z) as u64)
    }

    /// The length of `self` in millionths of a thousandth, rounded up: fine
    /// enough that dividing by it bends no direction.
    pub open spec fn fine_length(self) -> int {
        ceil_sqrt(self.norm_sq() * FINE_SQUARED)
    }

    /// The unit vector along `self` in fixed point: every coordinate times
    /// [`SCALE`] over the length, rounded toward zero. Its own length is
    /// between 998 and 1000 thousandths. The zero vector, which has no
    /// direction, stays the zero vector.
    pub open spec fn spec_normalized(self) -> Vec3 {
        if self.norm_sq() == 0 {
            Vec3 { x: 0, y: 0, z: 0 }
        } else {
            Vec3 {
                x: scale_toward_zero(self.x as int, UNIT_OVER_FINE as int, self.fine_length()) as i64,
                y: scale_toward_zero(self.y as int, UNIT_OVER_FINE as int, self.fine_length()) as i64,
                z: scale_toward_zero(self.z as int, UNIT_OVER_FINE as int, self.fine_length()) as i64,
            }
        }
    }

    /// Computes the fixed-point unit vector along `self`.
    pub fn normalized(self) -> (n: Vec3)
        requires
            self.within(SPAN_LIMIT as int),
        ensures
            n == self.spec_normalized(),
            n.within(SCALE as int),
            self.norm_sq() != 0 ==> 998 * 998 <= n.norm_sq() <= 1000 * 1000,
            self.norm_sq() == 0 ==> n == (Vec3 { x: 0, y: 0, z: 0 }),
    {
        let square: u64 = self.length_squared();
        if square == 0 {
            return Vec3 { x: 0, y: 0, z: 0 };
        }
        assert(square * 1_000_000_000_000 <= 12_000_000_000_000_000_000 * 1_000_000_000_000)
            by (nonlinear_arith)
            requires
                square <= 12_000_000_000_000_000_000,
        ;
        let fine: u128 = isqrt_up((square as u128) * 1_000_000_000_000);
        proof {
            lemma_normalized_is_a_unit_vector(self);
            lemma_ceil_sqrt(square * 1_000_000_000_000);
            if fine > 4_000_000_000_000_000 {
                lemma_square_monotone(4_000_000_000_000_000, fine - 1);
            }
        }
        let fine: u64 = fine as u64;
        Vec3 {
            x: scale_component(self.x, 1_000_000_000, fine),
            y: scale_component(self.y, 1_000_000_000, fine),
            z: scale_component(self.z, 1_000_000_000, fine),
        }
    }
}

/// The square of a million: lengths are squared before their root is taken.
pub const FINE_SQUARED: i64 = 1_000_000_000_000;

/// A thousand times a million: what a coordinate is multiplied by before it
/// is divided by the fine length, to come out in thousandths.
pub const UNIT_OVER_FINE: i64 = 1_000_000_000;

/// The square of a sum of three numbers is at most three times the sum of
/// their squares.
proof fn lemma_sum_below_squares(x: int, y: int, z: int)
    by (nonlinear_arith)
    ensures
        (x + y + z) * (x + y + z) <= 3 * (x * x + y * y + z * z),
{
}

/// The square of a product is the product of the squares.
proof fn lemma_product_squared(p: int, q: int)
    by (nonlinear_arith)
    ensures
        (p * q) * (p * q) == (p * p) * (q * q),
{
}

/// The share `part * num / den` of a part, with its remainder bounded.
proof fn lemma_share_of(part: int, num: int, den: int)
    by (nonlinear_arith)
    requires
        0 <= part,
        0 <= num,
        0 < den,
    ensures
        0 <= part * num / den,
        (part * num / den) * den <= part * num,
        part * num < (part * num / den + 1) * den,
{
}

/// Three absolute coordinates `a`, `b`, `c`, each multiplied by a billion
/// and divided by a length `m` that is their true length in millionths of a
/// thousandth, rounded up, make a vector between 998 and 1000 long.
proof fn lemma_unit_length(a: int, b: int, c: int, m: int)
    requires
        0 <= a,
        0 <= b,
        0 <= c,
        0 < a * a + b * b + c * c,
        1 <= m,
        (a * a + b * b + c * c) * 1_000_000_000_000 <= m * m,
        (m - 1) * (m - 1) < (a * a + b * b + c * c) * 1_000_000_000_000,
    ensures
        ({
            let x = a * 1_000_000_000 / m;
            let y = b * 1_000_000_000 / m;
            let z = c * 1_000_000_000 / m;
            &&& 0 <= x <= 1000
            &&& 0 <= y <= 1000
            &&& 0 <= z <= 1000
            &&& 998 * 998 <= x * x + y * y + z * z <= 1000 * 1000
        }),
{
    let g: int = 1_000_000_000;
    let n = a * a + b * b + c * c;
    let x = a * g / m;
    let y = b * g / m;
    let z = c * g / m;
    lemma_share_of(a, g, m);
    lemma_share_of(b, g, m);
    lemma_share_of(c, g, m);
    lemma_square_nonnegative(a);
    lemma_square_nonnegative(b);
    lemma_square_nonnegative(c);
    let s0 = x * x + y * y + z * z;
    let mm = m * m;

    // From above: the shares, times the length, stay below the coordinates.
    assert(0 <= x * m && 0 <= y * m && 0 <= z * m) by (nonlinear_arith)
        requires
            0 <= x,
            0 <= y,
            0 <= z,
            0 < m,
    ;
    assert(0 <= a * g && 0 <= b * g && 0 <= c * g) by (nonlinear_arith)
        requires
            0 <= a,
            0 <= b,
            0 <= c,
            g == 1_000_000_000,
    ;
    lemma_square_monotone(x * m, a * g);
    lemma_square_monotone(y * m, b * g);
    lemma_square_monotone(z * m, c * g);
    lemma_product_squared(x, m);
    lemma_product_squared(y, m);
    lemma_product_squared(z, m);
    lemma_product_squared(a, g);
    lemma_product_squared(b, g);
    lemma_product_squared(c, g);
    assert(g * g == 1_000_000_000_000_000_000) by (nonlinear_arith)
        requires
            g == 1_000_000_000,
    ;
    let gg = g * g;
    assert(s0 * mm == (x * x) * mm + (y * y) * mm + (z * z) * mm) by (nonlinear_arith)
        requires
            s0 == x * x + y * y + z * z,
    ;
    assert(n * gg == (a * a) * gg + (b * b) * gg + (c * c) * gg) by (nonlinear_arith)
        requires
            n == a * a + b * b + c * c,
    ;
    assert(s0 * mm <= n * gg);
    assert(n * gg <= 1_000_000 * mm) by (nonlinear_arith)
        requires
            n * 1_000_000_000_000 <= mm,
            gg == 1_000_000_000_000_000_000,
    ;
    assert(s0 <= 1_000_000) by (nonlinear_arith)
        requires
            s0 * mm <= 1_000_000 * mm,
            0 < mm,
    ;
    lemma_square_nonnegative(x);
    lemma_square_nonnegative(y);
    lemma_square_nonnegative(z);
    assert(x <= 1000 && y <= 1000 && z <= 1000) by (nonlinear_arith)
        requires
            x * x + y * y + z * z <= 1_000_000,
            0 <= x,
            0 <= y,
            0 <= z,
    ;

    // From below: the shares and one, times the length, pass the
    // coordinates.
    let x1 = x + 1;
    let y1 = y + 1;
    let z1 = z + 1;
    lemma_square_monotone(a * g, x1 * m);
    lemma_square_monotone(b * g, y1 * m);
    lemma_square_monotone(c * g, z1 * m);
    lemma_product_squared(x1, m);
    lemma_product_squared(y1, m);
    lemma_product_squared(z1, m);
    let s1 = x1 * x1 + y1 * y1 + z1 * z1;
    assert(s1 * mm == (x1 * x1) * mm + (y1 * y1) * mm + (z1 * z1) * mm) by (nonlinear_arith)
        requires
            s1 == x1 * x1 + y1 * y1 + z1 * z1,
    ;
    assert(n * gg <= s1 * mm);
    assert(m >= 1_000_000) by (nonlinear_arith)
        requires
            1_000_000_000_000 <= m * m,
            0 < m,
    ;
    assert(s1 * mm > 999_998 * mm) by (nonlinear_arith)
        requires
            n * gg <= s1 * mm,
            gg == 1_000_000_000_000_000_000,
            (m - 1) * (m - 1) < n * 1_000_000_000_000,
            mm == m * m,
            m >= 1_000_000,
    ;
    assert(s1 > 999_998) by (nonlinear_arith)
        requires
            s1 * mm > 999_998 * mm,
            0 < mm,
    ;
    let t = x + y + z;
    lemma_sum_below_squares(x, y, z);
    assert(s1 == s0 + 2 * t + 3) by (nonlinear_arith)
        requires
            s1 == (x + 1) * (x + 1) + (y + 1) * (y + 1) + (z + 1) * (z + 1),
            s0 == x * x + y * y + z * z,
            t == x + y + z,
    ;
    if s0 < 996_004 {
        assert(t <= 1728) by (nonlinear_arith)
            requires
                t * t <= 3 * s0,
                s0 < 996_004,
                0 <= t,
        ;
    }
}

/// The normalised vector is a unit vector: for every offset but zero its
/// length lies between 998 and 1000 thousandths, every coordinate keeps its
/// sign, and every coordinate is the offset's coordinate over the length,
/// rounded toward zero, the length being taken in millionths of a
/// thousandth and rounded up.
pub proof fn lemma_normalized_is_a_unit_vector(v: Vec3)
    requires
        v.within(SPAN_LIMIT as int),
        v.norm_sq() != 0,
    ensures
        998 * 998 <= v.spec_normalized().norm_sq() <= 1000 * 1000,
        v.spec_normalized().within(SCALE as int),
        (v.fine_length() - 1) * (v.fine_length() - 1) < v.norm_sq() * FINE_SQUARED
            <= v.fine_length() * v.fine_length(),
        abs(v.spec_normalized().x as int) == abs(v.x as int) * UNIT_OVER_FINE / v.fine_length(),
        abs(v.spec_normalized().y as int) == abs(v.y as int) * UNIT_OVER_FINE / v.fine_length(),
        abs(v.spec_normalized().z as int) == abs(v.z as int) * UNIT_OVER_FINE / v.fine_length(),
        v.x >= 0 ==> v.spec_normalized().x >= 0,
        v.x <= 0 ==> v.spec_normalized().x <= 0,
        v.y >= 0 ==> v.spec_normalized().y >= 0,
        v.y <= 0 ==> v.spec_normalized().y <= 0,
        v.z >= 0 ==> v.spec_normalized().z >= 0,
        v.z <= 0 ==> v.spec_normalized().z <= 0,
{
    let a = abs(v.x as int);
    let b = abs(v.y as int);
    let c = abs(v.z as int);
    let m = v.fine_length();
    lemma_square_nonnegative(v.x as int);
    lemma_square_nonnegative(v.y as int);
    lemma_square_nonnegative(v.z as int);
    assert(a * a == v.x * v.x && b * b == v.y * v.y && c * c == v.z * v.z) by (nonlinear_arith)
        requires
            a == abs(v.x as int),
            b == abs(v.y as int),
            c == abs(v.z as int),
    ;
    let n = v.norm_sq();
    assert(0 < n * 1_000_000_000_000) by (nonlinear_arith)
        requires
            0 < n,
    ;
    lemma_ceil_sqrt(n * FINE_SQUARED);
    lemma_unit_length(a, b, c, m);
    let x = a * 1_000_000_000 / m;
    let y = b * 1_000_000_000 / m;
    let z = c * 1_000_000_000 / m;
    assert(0int * 1_000_000_000 / m == 0) by (nonlinear_arith)
        requires
            0 < m,
    ;
    let u = v.spec_normalized();
    assert(abs(u.x as int) == x && abs(u.y as int) == y && abs(u.z as int) == z);
    assert(u.x * u.x == x * x && u.y * u.y == y * y && u.z * u.z == z * z) by (nonlinear_arith)
        requires
            abs(u.x as int) == x,
            abs(u.y as int) == y,
            abs(u.z as int) == z,
    ;
}

/// The squared distance between two points.
pub open spec fn dist_sq(a: Vec3, b: Vec3) -> int {
    (b.x - a.x) * (b.x - a.x) + (b.y - a.y) * (b.y - a.y) + (b.z - a.z) * (b.z - a.z)
}

/// Computes the squared distance between two points.
pub fn distance_squared(a: Vec3, b: Vec3) -> (r: u64)
    requires
        a.within(COORD_LIMIT as int),
        b.within(COORD_LIMIT as int),
    ensures
        r == dist_sq(a, b),
{
    a.to(b).length_squared()
}

} // verus!
