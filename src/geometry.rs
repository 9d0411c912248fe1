//! Exact integer plane geometry: vectors, axis-aligned rectangles and an
//! integer square root.
use vstd::prelude::*;

verus! {

/// Largest magnitude of a stored coordinate, velocity component or
/// rectangle half-extent (2^40 world units).
pub const COORD_LIMIT: i64 = 1_099_511_627_776;

/// `v` has both components in `[-k, k]`.
pub open spec fn within(v: Vec2, k: int) -> bool {
    -k <= v.x <= k && -k <= v.y <= k
}

/// A point or displacement of the plane, in whole world units.
#[derive(Clone, Copy, Debug, PartialEq, Eq)]
pub struct Vec2 {
    pub x: i64,
    pub y: i64,
}

/// Sum of two vectors, over the integers.
pub open spec fn vadd(a: Vec2, b: Vec2) -> (int, int) {
    (a.x + b.x, a.y + b.y)
}

/// Squared Euclidean length.
pub open spec fn len_sq(v: Vec2) -> int {
    v.x * v.x + v.y * v.y
}

/// Dot product.
pub open spec fn dot(a: Vec2, b: Vec2) -> int {
    a.x * b.x + a.y * b.y
}

/// Cross product (z-component of `a x b`).
pub open spec fn cross(a: Vec2, b: Vec2) -> int {
    a.x * b.y - a.y * b.x
}

/// `r` is the integer square root of `n`.
pub open spec fn is_isqrt(n: int, r: int) -> bool {
    0 <= r && r * r <= n && n < (r + 1) * (r + 1)
}

/// Division that rounds toward zero.
pub open spec fn div_trunc(a: int, b: int) -> int
    recommends
        b > 0,
{
    if a >= 0 {
        a / b
    } else {
        -((-a) / b)
    }
}

/// `c` scaled by `num / den`, rounded toward zero.
pub open spec fn scale_trunc(c: int, num: int, den: int) -> int {
    div_trunc(c * num, den)
}

/// The vector of `dir`'s direction whose length is `speed`, given `root`,
/// the floor of `|dir| * speed`: each component is `d * speed^2 / root`
/// rounded toward zero; the zero vector when `root` is zero.
pub open spec fn scaled_unit(dir: Vec2, speed: int, root: int) -> (int, int) {
    if root == 0 {
        (0, 0)
    } else {
        (div_trunc(dir.x * speed * speed, root), div_trunc(dir.y * speed * speed, root))
    }
}

impl Vec2 {
    pub open spec fn wf(self) -> bool {
        within(self, COORD_LIMIT as int)
    }

    pub fn new(x: i64, y: i64) -> (r: Vec2)
        ensures
            r.x == x,
            r.y == y,
    {
        Vec2 { x, y }
    }

    pub fn zero() -> (r: Vec2)
        ensures
            r.x == 0,
            r.y == 0,
    {
        Vec2 { x: 0, y: 0 }
    }

    pub fn is_zero(&self) -> (r: bool)
        ensures
            r == (self.x == 0 && self.y == 0),
    {
        self.x == 0 && self.y == 0
    }

    /// Component-wise sum.
    pub fn plus(&self, o: &Vec2) -> (r: Vec2)
        requires
            within(*self, 8 * COORD_LIMIT),
            within(*o, 8 * COORD_LIMIT),
        ensures
            r.x == self.x + o.x,
            r.y == self.y + o.y,
    {
        Vec2 { x: self.x + o.x, y: self.y + o.y }
    }

    /// Component-wise difference.
    pub fn minus(&self, o: &Vec2) -> (r: Vec2)
        requires
            within(*self, 8 * COORD_LIMIT),
            within(*o, 8 * COORD_LIMIT),
        ensures
            r.x == self.x - o.x,
            r.y == self.y - o.y,
    {
        Vec2 { x: self.x - o.x, y: self.y - o.y }
    }

    /// The vector turned a quarter turn: `(-y, x)`.
    pub fn perp(&self) -> (r: Vec2)
        requires
            within(*self, 8 * COORD_LIMIT),
        ensures
            r.x == -self.y,
            r.y == self.x,
    {
        Vec2 { x: -self.y, y: self.x }
    }

    /// Dot product, exact.
    pub fn dot(&self, o: &Vec2) -> (r: i128)
        requires
            within(*self, 8 * COORD_LIMIT),
            within(*o, 8 * COORD_LIMIT),
        ensures
            r == dot(*self, *o),
    {
        proof { lemma_product_fits(self.x as int, o.x as int); lemma_product_fits(self.y as int, o.y as int); }
        (self.x as i128) * (o.x as i128) + (self.y as i128) * (o.y as i128)
    }

    /// Cross product, exact.
    pub fn cross(&self, o: &Vec2) -> (r: i128)
        requires
            within(*self, 8 * COORD_LIMIT),
            within(*o, 8 * COORD_LIMIT),
        ensures
            r == cross(*self, *o),
    {
        proof { lemma_product_fits(self.x as int, o.y as int); lemma_product_fits(self.y as int, o.x as int); }
        (self.x as i128) * (o.y as i128) - (self.y as i128) * (o.x as i128)
    }

    /// Squared length, exact.
    pub fn len_sq(&self) -> (r: i128)
        requires
            within(*self, 8 * COORD_LIMIT),
        ensures
            r == len_sq(*self),
            r >= 0,
    {
        proof {
            lemma_product_fits(self.x as int, self.x as int);
            lemma_product_fits(self.y as int, self.y as int);
            assert(self.x * self.x >= 0 && self.y * self.y >= 0) by (nonlinear_arith);
        }
        (self.x as i128) * (self.x as i128) + (self.y as i128) * (self.y as i128)
    }
}

/// Products of two values bounded by `8 * COORD_LIMIT` (2^43) stay within
/// 2^86.
pub proof fn lemma_product_fits(a: int, b: int)
    requires
        -8 * COORD_LIMIT <= a <= 8 * COORD_LIMIT,
        -8 * COORD_LIMIT <= b <= 8 * COORD_LIMIT,
    ensures
        -0x40_0000_0000_0000_0000_0000 <= a * b <= 0x40_0000_0000_0000_0000_0000,
{
    assert(-0x800_0000_0000 <= a <= 0x800_0000_0000);
    assert(-0x800_0000_0000 <= b <= 0x800_0000_0000);
    assert(-0x40_0000_0000_0000_0000_0000 <= a * b <= 0x40_0000_0000_0000_0000_0000)
        by (nonlinear_arith)
        requires
            -0x800_0000_0000 <= a <= 0x800_0000_0000,
            -0x800_0000_0000 <= b <= 0x800_0000_0000,
    ;
}

/// Integer square root by bisection.
pub fn isqrt(n: u128) -> (r: u128)
    requires
        n < 0x4000_0000_0000_0000_0000_0000_0000_0000,
    ensures
        is_isqrt(n as int, r as int),
{
    let mut lo: u128 = 0;
    let mut hi: u128 = 0x8000_0000_0000_0000;
    assert(0x8000_0000_0000_0000u128 * 0x8000_0000_0000_0000u128 == 0x4000_0000_0000_0000_0000_0000_0000_0000u128);
    while hi - lo > 1
        invariant
            lo < hi <= 0x8000_0000_0000_0000,
            lo * lo <= n,
            n < hi * hi,
        decreases hi - lo,
    {
        let mid: u128 = lo + (hi - lo) / 2;
        assert(mid * mid <= 0x8000_0000_0000_0000 * 0x8000_0000_0000_0000) by (nonlinear_arith)
            requires
                mid <= 0x8000_0000_0000_0000,
        ;
        if mid * mid <= n {
            lo = mid;
        } else {
            hi = mid;
        }
    }
    assert(hi == lo + 1);
    lo
}

/// Division of a signed value by a positive one, rounding toward zero.
pub fn div_toward_zero(a: i128, b: i128) -> (r: i128)
    requires
        b > 0,
        a > i128::MIN,
    ensures
        r == div_trunc(a as int, b as int),
{
    if a >= 0 {
        a / b
    } else {
        let q = (-a) / b;
        proof { vstd::arithmetic::div_mod::lemma_div_is_ordered_by_denominator(-a, 1, b as int); }
        -q
    }
}

/// An axis-aligned rectangle centred on the origin of its owner's local
/// space, given by its half-width and half-height.
#[derive(Clone, Copy, Debug, PartialEq, Eq)]
pub struct Rect {
    pub half_w: i64,
    pub half_h: i64,
}

/// Corner `i` (taken modulo 4) of the rectangle `r` centred at `c`, in the
/// winding order: min/min, max/min, max/max, min/max.
pub open spec fn corner(r: Rect, c: Vec2, i: int) -> Vec2 {
    let k = i % 4;
    Vec2 {
        x: (if k == 0 || k == 3 { c.x - r.half_w } else { c.x + r.half_w }) as i64,
        y: (if k == 0 || k == 1 { c.y - r.half_h } else { c.y + r.half_h }) as i64,
    }
}

/// `p` (in the rectangle's local space) lies strictly inside `r`.
pub open spec fn strictly_inside(r: Rect, p: (int, int)) -> bool {
    -r.half_w < p.0 < r.half_w && -r.half_h < p.1 < r.half_h
}

impl Rect {
    pub open spec fn wf(self) -> bool {
        0 <= self.half_w <= COORD_LIMIT && 0 <= self.half_h <= COORD_LIMIT
    }

    /// A rectangle of the given half-width and half-height.
    pub fn new(half_w: i64, half_h: i64) -> (r: Rect)
        ensures
            r.half_w == half_w,
            r.half_h == half_h,
    {
        Rect { half_w, half_h }
    }

    /// Whether the local-space point `p` lies strictly inside.
    pub fn contains(&self, p: &Vec2) -> (r: bool)
        ensures
            r == strictly_inside(*self, (p.x as int, p.y as int)),
    {
        -(self.half_w as i128) < p.x as i128 && (p.x as i128) < self.half_w as i128
            && -(self.half_h as i128) < p.y as i128 && (p.y as i128) < self.half_h as i128
    }

    /// The four corners of the rectangle centred at `center`, in winding order.
    pub fn corners(&self, center: &Vec2) -> (r: Vec<Vec2>)
        requires
            self.wf(),
            within(*center, 2 * COORD_LIMIT),
        ensures
            r@.len() == 4,
            forall|i: int| 0 <= i < 4 ==> r@[i] == #[trigger] corner(*self, *center, i),
    {
        let lo_x = center.x - self.half_w;
        let hi_x = center.x + self.half_w;
        let lo_y = center.y - self.half_h;
        let hi_y = center.y + self.half_h;
        let v = vec![
            Vec2 { x: lo_x, y: lo_y },
            Vec2 { x: hi_x, y: lo_y },
            Vec2 { x: hi_x, y: hi_y },
            Vec2 { x: lo_x, y: hi_y },
        ];
        assert(0int % 4 == 0 && 1int % 4 == 1 && 2int % 4 == 2 && 3int % 4 == 3);
        v
    }
}

} // verus!
