//! Integer vector utilities: grid points, 3-vectors, dot and cross products,
//! an integer square root, and fixed-point normalization.

use vstd::prelude::*;

verus! {

/// Scale factor of fixed-point normal components: a unit vector component of
/// 1.0 is stored as `NORMAL_FP`.
pub const NORMAL_FP: i64 = 65536;

/// Largest voxel-volume dimension the library accepts; keeps every product in
/// the integer geometry well inside `i64`.
pub const MAX_DIM: usize = 16384;

/// A grid coordinate: a voxel index in the volume.
#[derive(Clone, Copy, PartialEq, Eq, Structural, Debug)]
pub struct Point {
    pub x: usize,
    pub y: usize,
    pub z: usize,
}

/// An integer 3-vector: a coordinate difference, a cross product, or a
/// fixed-point normal scaled by `NORMAL_FP`.
#[derive(Clone, Copy, PartialEq, Eq, Structural, Debug)]
pub struct Vec3i {
    pub x: i64,
    pub y: i64,
    pub z: i64,
}

impl Point {
    /// Every coordinate is below `MAX_DIM`.
    pub open spec fn in_range(self) -> bool {
        self.x < MAX_DIM && self.y < MAX_DIM && self.z < MAX_DIM
    }

    pub fn new(x: usize, y: usize, z: usize) -> (p: Point)
        ensures
            p == (Point { x, y, z }),
    {
        Point { x, y, z }
    }

    /// The vector from `other` to `self`, componentwise.
    pub open spec fn spec_sub(self, other: Point) -> Vec3i {
        Vec3i {
            x: (self.x - other.x) as i64,
            y: (self.y - other.y) as i64,
            z: (self.z - other.z) as i64,
        }
    }

    pub fn sub(&self, other: &Point) -> (r: Vec3i)
        requires
            self.in_range(),
            other.in_range(),
        ensures
            r == self.spec_sub(*other),
            r.bounded(MAX_DIM as int),
    {
        Vec3i {
            x: self.x as i64 - other.x as i64,
            y: self.y as i64 - other.y as i64,
            z: self.z as i64 - other.z as i64,
        }
    }
}

impl Vec3i {
    /// Every component lies in `[-b, b]`.
    pub open spec fn bounded(self, b: int) -> bool {
        -b <= self.x <= b && -b <= self.y <= b && -b <= self.z <= b
    }

    pub open spec fn spec_dot(self, other: Vec3i) -> int {
        self.x * other.x + self.y * other.y + self.z * other.z
    }

    pub open spec fn spec_cross(self, other: Vec3i) -> Vec3i {
        Vec3i {
            x: (self.y * other.z - self.z * other.y) as i64,
            y: (self.z * other.x - self.x * other.z) as i64,
            z: (self.x * other.y - self.y * other.x) as i64,
        }
    }

    pub open spec fn spec_add(self, other: Vec3i) -> Vec3i {
        Vec3i {
            x: (self.x + other.x) as i64,
            y: (self.y + other.y) as i64,
            z: (self.z + other.z) as i64,
        }
    }

    pub open spec fn is_zero(self) -> bool {
        self.x == 0 && self.y == 0 && self.z == 0
    }

    pub fn dot(&self, other: &Vec3i) -> (r: i64)
        requires
            self.bounded(0x4000_0000),
            other.bounded(0x4000_0000),
        ensures
            r == self.spec_dot(*other),
    {
        proof {
            lemma_mul_bound(self.x as int, other.x as int, 0x4000_0000);
            lemma_mul_bound(self.y as int, other.y as int, 0x4000_0000);
            lemma_mul_bound(self.z as int, other.z as int, 0x4000_0000);
        }
        self.x * other.x + self.y * other.y + self.z * other.z
    }

    pub fn cross(&self, other: &Vec3i) -> (r: Vec3i)
        requires
            self.bounded(0x4000_0000),
            other.bounded(0x4000_0000),
        ensures
            r == self.spec_cross(*other),
            r.bounded(0x2000_0000_0000_0000),
    {
        proof {
            lemma_mul_bound(self.y as int, other.z as int, 0x4000_0000);
            lemma_mul_bound(self.z as int, other.y as int, 0x4000_0000);
            lemma_mul_bound(self.z as int, other.x as int, 0x4000_0000);
            lemma_mul_bound(self.x as int, other.z as int, 0x4000_0000);
            lemma_mul_bound(self.x as int, other.y as int, 0x4000_0000);
            lemma_mul_bound(self.y as int, other.x as int, 0x4000_0000);
        }
        Vec3i {
            x: self.y * other.z - self.z * other.y,
            y: self.z * other.x - self.x * other.z,
            z: self.x * other.y - self.y * other.x,
        }
    }

    pub fn add(&self, other: &Vec3i) -> (r: Vec3i)
        requires
            self.bounded(0x2000_0000_0000_0000),
            other.bounded(0x2000_0000_0000_0000),
        ensures
            r == self.spec_add(*other),
    {
        Vec3i {
            x: self.x + other.x,
            y: self.y + other.y,
            z: self.z + other.z,
        }
    }
}

/// `|a*b| <= c*c` whenever `|a| <= c` and `|b| <= c`.
proof fn lemma_mul_bound(a: int, b: int, c: int)
    requires
        0 <= c,
        -c <= a <= c,
        -c <= b <= c,
    ensures
        -(c * c) <= a * b <= c * c,
{
    assert(-(c * c) <= a * b <= c * c) by (nonlinear_arith)
        requires
            0 <= c,
            -c <= a <= c,
            -c <= b <= c,
    ;
}

/// The cross product of `c`-bounded vectors is `2*c*c`-bounded.
pub proof fn lemma_cross_bounded(a: Vec3i, b: Vec3i, c: int)
    requires
        0 <= c,
        2 * (c * c) <= i64::MAX,
        a.bounded(c),
        b.bounded(c),
    ensures
        a.spec_cross(b).bounded(2 * (c * c)),
{
    lemma_mul_bound(a.y as int, b.z as int, c);
    lemma_mul_bound(a.z as int, b.y as int, c);
    lemma_mul_bound(a.z as int, b.x as int, c);
    lemma_mul_bound(a.x as int, b.z as int, c);
    lemma_mul_bound(a.x as int, b.y as int, c);
    lemma_mul_bound(a.y as int, b.x as int, c);
}

/// `r` is the integer square root of `n`.
pub open spec fn is_sqrt(n: int, r: int) -> bool {
    0 <= r && r * r <= n && n < (r + 1) * (r + 1)
}

/// The integer square root (rounded down) of a non-negative integer.
pub open spec fn sqrt_floor(n: int) -> int {
    choose|r: int| is_sqrt(n, r)
}

/// The integer square root is unique.
pub proof fn lemma_sqrt_unique(n: int, r1: int, r2: int)
    requires
        is_sqrt(n, r1),
        is_sqrt(n, r2),
    ensures
        r1 == r2,
{
    assert(r1 == r2) by (nonlinear_arith)
        requires
            is_sqrt(n, r1),
            is_sqrt(n, r2),
    ;
}

/// Integer square root by bisection.
pub fn isqrt(n: u128) -> (r: u128)
    ensures
        is_sqrt(n as int, r as int),
        r == sqrt_floor(n as int),
{
    let mut lo: u128 = 0;
    let mut hi: u128 = 0x1_0000_0000_0000_0000;
    assert(n < hi * hi) by (nonlinear_arith)
        requires
            n <= u128::MAX,
            hi == 0x1_0000_0000_0000_0000,
    ;
    while lo + 1 < hi
        invariant
            lo < hi <= 0x1_0000_0000_0000_0000,
            lo * lo <= n,
            n < hi * hi,
        decreases hi - lo,
    {
        let mid: u128 = lo + (hi - lo) / 2;
        assert(lo < mid < hi);
        assert(mid * mid <= u128::MAX) by (nonlinear_arith)
            requires
                mid < 0x1_0000_0000_0000_0000,
        ;
        let sq: u128 = mid * mid;
        if sq <= n {
            lo = mid;
        } else {
            hi = mid;
        }
    }
    assert(is_sqrt(n as int, lo as int));
    proof {
        lemma_sqrt_unique(n as int, lo as int, sqrt_floor(n as int));
    }
    lo
}

/// Division of `a` by positive `b`, truncating toward zero; matches what the
/// executable code computes on magnitudes with an explicit sign.
pub open spec fn tdiv(a: int, b: int) -> int {
    if a >= 0 {
        a / b
    } else {
        -((-a) / b)
    }
}

/// Division of a bounded value by a positive divisor, truncating toward
/// zero, as `tdiv` describes.
pub fn tdiv_i64(a: i64, b: i64) -> (r: i64)
    requires
        0 < b,
        -0x4000_0000_0000_0000 <= a <= 0x4000_0000_0000_0000,
    ensures
        r == tdiv(a as int, b as int),
{
    if a >= 0 {
        ((a as u64) / (b as u64)) as i64
    } else {
        let m: u64 = ((-a) as u64) / (b as u64);
        -(m as i64)
    }
}

/// The fixed-point unit vector pointing the way `v` does: each component is
/// `v_i * NORMAL_FP / |v|`, rounded toward zero. The zero vector gets the
/// stable fallback `(0, 0, NORMAL_FP)`, straight up the vertical fill axis.
pub open spec fn norm_fixed_spec(v: Vec3i) -> Vec3i {
    if v.is_zero() {
        Vec3i { x: 0, y: 0, z: NORMAL_FP }
    } else {
        let len = sqrt_floor(v.spec_dot(v) * (NORMAL_FP * NORMAL_FP));
        Vec3i {
            x: tdiv(v.x * (NORMAL_FP * NORMAL_FP), len) as i64,
            y: tdiv(v.y * (NORMAL_FP * NORMAL_FP), len) as i64,
            z: tdiv(v.z * (NORMAL_FP * NORMAL_FP), len) as i64,
        }
    }
}

/// One fixed-point component `v_i * NORMAL_FP^2 / len`, computed on the
/// magnitude with an explicit sign so that it matches `tdiv`.
fn norm_component(c: i64, len: u128) -> (r: i64)
    requires
        -0x4000_0000 <= c <= 0x4000_0000,
        0 < len,
        -NORMAL_FP <= tdiv(c * (NORMAL_FP * NORMAL_FP), len as int) <= NORMAL_FP,
    ensures
        r == tdiv(c * (NORMAL_FP * NORMAL_FP), len as int),
{
    let scale: u128 = (NORMAL_FP as u128) * (NORMAL_FP as u128);
    if c >= 0 {
        let num: u128 = (c as u128) * scale;
        let q: u128 = num / len;
        assert(q == (c * (NORMAL_FP * NORMAL_FP)) / (len as int)) by (nonlinear_arith)
            requires
                num == c * (NORMAL_FP * NORMAL_FP),
                c >= 0,
                len > 0,
                q == num / len,
        ;
        q as i64
    } else {
        let mag: i64 = -c;
        let num: u128 = (mag as u128) * scale;
        let q: u128 = num / len;
        assert(q == ((-(c as int)) * (NORMAL_FP * NORMAL_FP)) / (len as int)) by (nonlinear_arith)
            requires
                num == (-(c as int)) * (NORMAL_FP * NORMAL_FP),
                c < 0,
                len > 0,
                q == num / len,
        ;
        assert((-(c as int)) * (NORMAL_FP * NORMAL_FP) == -(c * (NORMAL_FP * NORMAL_FP)))
            by (nonlinear_arith);
        -(q as i64)
    }
}

/// Normalize an integer vector into a fixed-point unit vector.
pub fn normalize_fixed(v: &Vec3i) -> (r: Vec3i)
    requires
        v.bounded(0x4000_0000),
    ensures
        r == norm_fixed_spec(*v),
        r.bounded(NORMAL_FP as int),
{
    if v.x == 0 && v.y == 0 && v.z == 0 {
        Vec3i { x: 0, y: 0, z: NORMAL_FP }
    } else {
        proof {
            lemma_mul_bound(v.x as int, v.x as int, 0x4000_0000);
            lemma_mul_bound(v.y as int, v.y as int, 0x4000_0000);
            lemma_mul_bound(v.z as int, v.z as int, 0x4000_0000);
            assert(v.x * v.x >= 0) by (nonlinear_arith);
            assert(v.y * v.y >= 0) by (nonlinear_arith);
            assert(v.z * v.z >= 0) by (nonlinear_arith);
            assert(v.x != 0 ==> v.x * v.x >= 1) by (nonlinear_arith);
            assert(v.y != 0 ==> v.y * v.y >= 1) by (nonlinear_arith);
            assert(v.z != 0 ==> v.z * v.z >= 1) by (nonlinear_arith);
        }
        let d: i64 = v.x * v.x + v.y * v.y + v.z * v.z;
        assert(d == v.spec_dot(*v));
        assert(d >= 1);
        let scale: u128 = (NORMAL_FP as u128) * (NORMAL_FP as u128);
        let radicand: u128 = (d as u128) * scale;
        let len: u128 = isqrt(radicand);
        proof {
            assert(radicand == v.spec_dot(*v) * (NORMAL_FP * NORMAL_FP)) by (nonlinear_arith)
                requires
                    radicand == d * ((NORMAL_FP as int) * (NORMAL_FP as int)),
                    d == v.spec_dot(*v),
            ;
            assert(radicand >= NORMAL_FP * NORMAL_FP) by (nonlinear_arith)
                requires
                    radicand == d * ((NORMAL_FP as int) * (NORMAL_FP as int)),
                    d >= 1,
            ;
            assert(len >= 1) by (nonlinear_arith)
                requires
                    radicand >= (NORMAL_FP as int) * (NORMAL_FP as int),
                    radicand < (len + 1) * (len + 1),
                    len >= 0,
            ;
            lemma_norm_component_in_range(v.x as int, d as int, len as int, radicand as int);
            lemma_norm_component_in_range(v.y as int, d as int, len as int, radicand as int);
            lemma_norm_component_in_range(v.z as int, d as int, len as int, radicand as int);
        }
        let rx: i64 = norm_component(v.x, len);
        let ry: i64 = norm_component(v.y, len);
        let rz: i64 = norm_component(v.z, len);
        Vec3i { x: rx, y: ry, z: rz }
    }
}

/// A normalized component never leaves the unit scale: with
/// `len = sqrt_floor(d * NORMAL_FP^2)` and `c^2 <= d`, the quotient
/// `c * NORMAL_FP^2 / len` stays within `[-NORMAL_FP, NORMAL_FP]`,
/// because `|c| * NORMAL_FP <= len`.
proof fn lemma_norm_component_in_range(c: int, d: int, len: int, radicand: int)
    requires
        c * c <= d,
        1 <= d,
        radicand == d * (NORMAL_FP * NORMAL_FP),
        is_sqrt(radicand, len),
        1 <= len,
    ensures
        -NORMAL_FP <= tdiv(c * (NORMAL_FP * NORMAL_FP), len) <= NORMAL_FP,
{
    let f = NORMAL_FP as int;
    let a = if c >= 0 { c } else { -c };
    let num = a * (f * f);
    assert(a * a == c * c) by (nonlinear_arith)
        requires
            a == if c >= 0 { c } else { -c },
    ;
    assert(num >= 0) by (nonlinear_arith)
        requires
            num == a * (f * f),
            a >= 0,
            f > 0,
    ;
    // (a * f)^2 <= radicand < (len + 1)^2, so a * f <= len.
    assert((a * f) * (a * f) <= radicand) by (nonlinear_arith)
        requires
            a >= 0,
            a * a <= d,
            f > 0,
            radicand == d * (f * f),
    ;
    assert(a * f <= len) by (nonlinear_arith)
        requires
            a >= 0,
            f > 0,
            len >= 0,
            (a * f) * (a * f) <= radicand,
            radicand < (len + 1) * (len + 1),
    ;
    // num = (a * f) * f <= len * f, so num / len <= f.
    assert(num <= len * f) by (nonlinear_arith)
        requires
            num == a * (f * f),
            a * f <= len,
            f > 0,
    ;
    vstd::arithmetic::div_mod::lemma_div_is_ordered(num, len * f, len);
    vstd::arithmetic::div_mod::lemma_div_multiples_vanish(f, len);
    assert(num / len <= f);
    vstd::arithmetic::div_mod::lemma_div_pos_is_pos(num, len);
    if c >= 0 {
        assert(tdiv(c * (f * f), len) == num / len);
    } else {
        assert(-c * (f * f) == -(c * (f * f))) by (nonlinear_arith);
        assert(tdiv(c * (f * f), len) == -(num / len));
    }
}

} // verus!
