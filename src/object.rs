//! Game objects: position, velocity with friction, an optional rectangular
//! collider, and the camera projection between world and screen space.
use vstd::prelude::*;
use crate::geometry::{
    div_toward_zero, div_trunc, is_isqrt, isqrt, len_sq, lemma_product_fits, scale_trunc,
    scaled_unit, strictly_inside, within, Rect, Vec2, COORD_LIMIT,
};

verus! {

/// Parameters of movement integration.
#[derive(Clone, Copy, Debug, PartialEq, Eq)]
pub struct Physics {
    /// Numerator of the per-frame friction factor.
    pub friction_num: i64,
    /// Denominator of the per-frame friction factor.
    pub friction_den: i64,
    /// A velocity whose squared length is at most this is treated as rest.
    pub rest_speed_sq: i64,
}

impl Physics {
    pub open spec fn wf(self) -> bool {
        0 <= self.friction_num < self.friction_den <= COORD_LIMIT && 0 <= self.rest_speed_sq
    }
}

/// A positioned entity with a velocity, a facing direction, a packed RGBA
/// colour and an optional collider centred on its position.
#[derive(Clone, Copy, Debug, PartialEq, Eq)]
pub struct GameObject {
    pub pos: Vec2,
    /// Direction the object faces (from the point it looks at, to itself).
    pub facing: Vec2,
    pub color: u32,
    pub velocity: Vec2,
    pub bound: Option<Rect>,
    /// Whether this object blocks the movement of others.
    pub collides: bool,
}

/// Whether `c` blocks a move that ends at world point `p`.
pub open spec fn blocks(c: GameObject, p: (int, int)) -> bool {
    c.collides && c.bound.is_some() && strictly_inside(
        c.bound.unwrap(),
        (p.0 - c.pos.x, p.1 - c.pos.y),
    )
}

/// Some collider of `cs` blocks the point `p`.
pub open spec fn inside_solid(cs: Seq<GameObject>, p: (int, int)) -> bool {
    exists|i: int| 0 <= i < cs.len() && blocks(#[trigger] cs[i], p)
}

/// A point within the world's coordinate range.
pub open spec fn in_world(p: (int, int)) -> bool {
    -COORD_LIMIT <= p.0 <= COORD_LIMIT && -COORD_LIMIT <= p.1 <= COORD_LIMIT
}

/// A move to `p` is refused: it leaves the world or ends inside a collider.
pub open spec fn move_blocked(cs: Seq<GameObject>, p: (int, int)) -> bool {
    !in_world(p) || inside_solid(cs, p)
}

/// The velocity after one frame of friction.
pub open spec fn decayed(v: Vec2, ph: Physics) -> Vec2 {
    Vec2 {
        x: scale_trunc(v.x as int, ph.friction_num as int, ph.friction_den as int) as i64,
        y: scale_trunc(v.y as int, ph.friction_num as int, ph.friction_den as int) as i64,
    }
}

/// Where a move of `o` over `dt` ticks would end.
pub open spec fn candidate(o: GameObject, dt: int) -> (int, int) {
    (o.pos.x + o.velocity.x * dt, o.pos.y + o.velocity.y * dt)
}

/// One frame of movement: a velocity at rest is zeroed; otherwise the object
/// moves to its candidate position unless that move is blocked, and its
/// velocity decays by friction either way.
pub open spec fn step(o: GameObject, dt: int, cs: Seq<GameObject>, ph: Physics) -> GameObject {
    if len_sq(o.velocity) <= ph.rest_speed_sq {
        GameObject { velocity: Vec2 { x: 0, y: 0 }, ..o }
    } else {
        let c = candidate(o, dt);
        GameObject {
            pos: if move_blocked(cs, c) {
                o.pos
            } else {
                Vec2 { x: c.0 as i64, y: c.1 as i64 }
            },
            velocity: decayed(o.velocity, ph),
            ..o
        }
    }
}

/// `n` frames of movement against the same colliders.
pub open spec fn steps(o: GameObject, dt: int, cs: Seq<GameObject>, ph: Physics, n: nat) -> GameObject
    decreases n,
{
    if n == 0 {
        o
    } else {
        steps(step(o, dt, cs, ph), dt, cs, ph, (n - 1) as nat)
    }
}

/// The floor square root of `n`.
pub open spec fn root_of(n: int) -> int {
    choose|r: int| is_isqrt(n, r)
}

/// Largest speed `move_to` takes (2^20 world units per tick).
pub const MAX_SPEED: i64 = 1_048_576;

/// The velocity `move_to` sets: `dir` normalised and scaled to `speed`.
pub open spec fn heading(dir: Vec2, speed: int) -> Vec2 {
    let v = scaled_unit(dir, speed, root_of(len_sq(dir) * speed * speed));
    Vec2 { x: v.0 as i64, y: v.1 as i64 }
}

/// World point `p` seen from a camera at `cam`.
pub open spec fn to_screen(cam: Vec2, p: Vec2) -> Vec2 {
    Vec2 { x: (p.x - cam.x) as i64, y: (p.y - cam.y) as i64 }
}

/// Screen point `s` of a camera at `cam`, in world space.
pub open spec fn to_world(cam: Vec2, s: Vec2) -> Vec2 {
    Vec2 { x: (cam.x + s.x) as i64, y: (cam.y + s.y) as i64 }
}

pub open spec fn abs(a: int) -> int {
    if a < 0 {
        -a
    } else {
        a
    }
}

/// Every object of `cs` is well formed.
pub open spec fn all_wf(cs: Seq<GameObject>) -> bool {
    forall|i: int| 0 <= i < cs.len() ==> (#[trigger] cs[i]).wf()
}

impl GameObject {
    pub open spec fn wf(self) -> bool {
        &&& self.pos.wf()
        &&& self.velocity.wf()
        &&& within(self.facing, 4 * COORD_LIMIT)
        &&& match self.bound {
            Some(b) => b.wf(),
            None => true,
        }
    }

    /// An object at rest at `(x, y)`, facing along +x, with a collider of the
    /// given half extents if any.
    pub fn new(x: i64, y: i64, color: u32, half_extents: Option<(i64, i64)>, collides: bool) -> (r: GameObject)
        ensures
            r.pos == (Vec2 { x, y }),
            r.facing == (Vec2 { x: 1, y: 0 }),
            r.color == color,
            r.velocity == (Vec2 { x: 0, y: 0 }),
            r.bound == (match half_extents {
                Some((hw, hh)) => Some(Rect { half_w: hw, half_h: hh }),
                None => None::<Rect>,
            }),
            r.collides == collides,
    {
        let bound = match half_extents {
            Some((hw, hh)) => Some(Rect::new(hw, hh)),
            None => None,
        };
        GameObject {
            pos: Vec2::new(x, y),
            facing: Vec2::new(1, 0),
            color,
            velocity: Vec2::zero(),
            bound,
            collides,
        }
    }

    pub fn get_bound(&self) -> (r: Option<Rect>)
        ensures
            r == self.bound,
    {
        self.bound
    }

    pub fn get_pos(&self) -> (r: Vec2)
        ensures
            r == self.pos,
    {
        self.pos
    }

    /// Whether `other` blocks a move that ends at `pos`.
    pub fn collides_with_at_pos(pos: &Vec2, other: &GameObject) -> (r: bool)
        requires
            pos.wf(),
            other.wf(),
        ensures
            r == blocks(*other, (pos.x as int, pos.y as int)),
    {
        match other.bound {
            Some(rect) => {
                let local = pos.minus(&other.pos);
                other.collides && rect.contains(&local)
            },
            None => false,
        }
    }

    /// Whether a move to `p` is refused.
    fn is_blocked(p: (i128, i128), colliders: &Vec<GameObject>) -> (r: bool)
        requires
            all_wf(colliders@),
        ensures
            r == move_blocked(colliders@, (p.0 as int, p.1 as int)),
    {
        if p.0 < -(COORD_LIMIT as i128) || p.0 > COORD_LIMIT as i128 || p.1 < -(COORD_LIMIT as i128)
            || p.1 > COORD_LIMIT as i128 {
            return true;
        }
        let pos = Vec2 { x: p.0 as i64, y: p.1 as i64 };
        let mut i: usize = 0;
        while i < colliders.len()
            invariant
                i <= colliders@.len(),
                all_wf(colliders@),
                pos.wf(),
                pos.x == p.0 && pos.y == p.1,
                forall|j: int| 0 <= j < i ==> !blocks(#[trigger] colliders@[j], (p.0 as int, p.1 as int)),
            decreases colliders@.len() - i,
        {
            if GameObject::collides_with_at_pos(&pos, &colliders[i]) {
                return true;
            }
            i += 1;
        }
        false
    }

    /// Advances the object by one frame of `dt` ticks against `colliders`.
    pub fn update_position(&mut self, dt: i64, colliders: &Vec<GameObject>, physics: &Physics)
        requires
            old(self).wf(),
            physics.wf(),
            all_wf(colliders@),
        ensures
            *final(self) == step(*old(self), dt as int, colliders@, *physics),
            final(self).wf(),
    {
        let speed_sq = self.velocity.len_sq();
        if speed_sq <= physics.rest_speed_sq as i128 {
            self.velocity = Vec2::zero();
            return;
        }
        proof {
            lemma_move_fits(self.velocity.x as int, dt as int);
            lemma_move_fits(self.velocity.y as int, dt as int);
        }
        let cx: i128 = self.pos.x as i128 + (self.velocity.x as i128) * (dt as i128);
        let cy: i128 = self.pos.y as i128 + (self.velocity.y as i128) * (dt as i128);
        if !GameObject::is_blocked((cx, cy), colliders) {
            self.pos = Vec2 { x: cx as i64, y: cy as i64 };
        }
        let vx = scale_component(self.velocity.x, physics.friction_num, physics.friction_den);
        let vy = scale_component(self.velocity.y, physics.friction_num, physics.friction_den);
        self.velocity = Vec2 { x: vx, y: vy };
    }

    /// Sets the velocity to `direction`, normalised, times `speed`. The
    /// object does not move until the next `update_position`.
    pub fn move_to(&mut self, direction: Vec2, speed: i64)
        requires
            old(self).wf(),
            within(direction, 4 * COORD_LIMIT),
            0 <= speed <= MAX_SPEED,
        ensures
            *final(self) == (GameObject { velocity: heading(direction, speed as int), ..*old(self) }),
            final(self).wf(),
    {
        self.velocity = unit_scaled(&direction, speed);
    }

    /// Turns the object to face away from `target` (its facing becomes
    /// `pos - target`), and returns that facing.
    pub fn look_at(&mut self, target: Vec2) -> (r: Vec2)
        requires
            old(self).wf(),
            within(target, 3 * COORD_LIMIT),
        ensures
            r == (Vec2 { x: (old(self).pos.x - target.x) as i64, y: (old(self).pos.y - target.y) as i64 }),
            *final(self) == (GameObject { facing: r, ..*old(self) }),
            final(self).wf(),
    {
        let f = self.pos.minus(&target);
        self.facing = f;
        f
    }

    /// The screen position of world point `world` for a camera placed here.
    pub fn world_to_screen(&self, world: Vec2) -> (r: Vec2)
        requires
            self.pos.wf(),
            within(world, 2 * COORD_LIMIT),
        ensures
            r == to_screen(self.pos, world),
            r.x == world.x - self.pos.x,
            r.y == world.y - self.pos.y,
    {
        world.minus(&self.pos)
    }

    /// The world position of screen point `screen` for a camera placed here.
    pub fn screen_to_world(&self, screen: Vec2) -> (r: Vec2)
        requires
            self.pos.wf(),
            within(screen, 3 * COORD_LIMIT),
        ensures
            r == to_world(self.pos, screen),
            r.x == self.pos.x + screen.x,
            r.y == self.pos.y + screen.y,
    {
        self.pos.plus(&screen)
    }
}

/// The displacement of one frame fits an `i128`.
proof fn lemma_move_fits(v: int, dt: int)
    requires
        -COORD_LIMIT <= v <= COORD_LIMIT,
        i64::MIN <= dt <= i64::MAX,
    ensures
        -0x1_0000_0000_0000_0000_0000_0000_0000 <= v * dt <= 0x1_0000_0000_0000_0000_0000_0000_0000,
{
    assert(-0x1_0000_0000_0000_0000_0000_0000_0000 <= v * dt <= 0x1_0000_0000_0000_0000_0000_0000_0000)
        by (nonlinear_arith)
        requires
            -0x100_0000_0000 <= v <= 0x100_0000_0000,
            -0x8000_0000_0000_0000 <= dt <= 0x8000_0000_0000_0000,
    ;
}

/// Scaling by `num / den < 1` shrinks a magnitude, strictly unless it is zero.
pub proof fn lemma_scale_shrinks(c: int, num: int, den: int)
    requires
        0 <= num < den,
    ensures
        abs(scale_trunc(c, num, den)) <= abs(c),
        c != 0 ==> abs(scale_trunc(c, num, den)) < abs(c),
        c >= 0 ==> scale_trunc(c, num, den) >= 0,
        c <= 0 ==> scale_trunc(c, num, den) <= 0,
{
    let m = abs(c);
    assert(m * num >= 0) by (nonlinear_arith)
        requires
            m >= 0,
            num >= 0,
    ;
    assert(m * num <= m * den - m) by (nonlinear_arith)
        requires
            m >= 0,
            num <= den - 1,
    ;
    vstd::arithmetic::div_mod::lemma_div_pos_is_pos(m * num, den);
    vstd::arithmetic::div_mod::lemma_fundamental_div_mod(m * num, den);
    vstd::arithmetic::div_mod::lemma_mod_pos_bound(m * num, den);
    let q = (m * num) / den;
    assert(den * q <= m * num);
    if m != 0 {
        assert(q < m) by (nonlinear_arith)
            requires
                den * q <= m * num,
                m * num <= m * den - m,
                m > 0,
                den > 0,
        ;
    } else {
        assert(m * num == 0);
    }
    if c < 0 {
        assert((-c) * num == m * num);
        assert(c * num == -(m * num)) by (nonlinear_arith)
            requires
                m == -c,
        ;
    } else {
        assert(c * num == m * num);
    }
}

/// `c * num / den`, rounded toward zero.
fn scale_component(c: i64, num: i64, den: i64) -> (r: i64)
    requires
        -COORD_LIMIT <= c <= COORD_LIMIT,
        0 <= num < den <= COORD_LIMIT,
    ensures
        r == scale_trunc(c as int, num as int, den as int),
        -COORD_LIMIT <= r <= COORD_LIMIT,
{
    proof {
        lemma_product_fits(c as int, num as int);
        lemma_scale_shrinks(c as int, num as int, den as int);
    }
    let p: i128 = (c as i128) * (num as i128);
    div_toward_zero(p, den as i128) as i64
}

/// The integer square root is unique.
pub proof fn lemma_isqrt_unique(n: int, a: int, b: int)
    requires
        is_isqrt(n, a),
        is_isqrt(n, b),
    ensures
        a == b,
{
    if a < b {
        assert((a + 1) * (a + 1) <= b * b) by (nonlinear_arith)
            requires
                0 <= a + 1 <= b,
        ;
    } else if b < a {
        assert((b + 1) * (b + 1) <= a * a) by (nonlinear_arith)
            requires
                0 <= b + 1 <= a,
        ;
    }
}

/// A component of a vector is at most its floor length.
proof fn lemma_component_le_root(d: int, n: int, r: int)
    requires
        d * d <= n,
        is_isqrt(n, r),
    ensures
        abs(d) <= r,
{
    let m = abs(d);
    assert(m * m == d * d) by (nonlinear_arith)
        requires
            m == d || m == -d,
    ;
    if m > r {
        assert(m * m >= (r + 1) * (r + 1)) by (nonlinear_arith)
            requires
                m >= r + 1,
                r >= 0,
        ;
    }
}

/// `d * speed^2 / root`, rounded toward zero, where `|d| * speed <= root`.
fn scale_by_root(d: i64, speed: i64, root: i128) -> (r: i64)
    requires
        -4 * COORD_LIMIT <= d <= 4 * COORD_LIMIT,
        0 <= speed <= MAX_SPEED,
        abs(d as int) * speed <= root,
        root > 0,
    ensures
        r == div_trunc(d * speed * speed, root as int),
        -MAX_SPEED <= r <= MAX_SPEED,
{
    proof {
        let m = abs(d as int);
        assert(m * speed * speed <= root * speed) by (nonlinear_arith)
            requires
                m * speed <= root,
                speed >= 0,
                m >= 0,
        ;
        assert(m * speed * speed >= 0) by (nonlinear_arith)
            requires
                m >= 0,
                speed >= 0,
        ;
        assert(-0x400_0000_0000_0000_0000_0000 <= d * speed * speed <= 0x400_0000_0000_0000_0000_0000)
            by (nonlinear_arith)
            requires
                -0x400_0000_0000 <= d <= 0x400_0000_0000,
                0 <= speed <= 0x10_0000,
        ;
        vstd::arithmetic::div_mod::lemma_div_is_ordered(m * speed * speed, root * speed, root as int);
        vstd::arithmetic::div_mod::lemma_div_multiples_vanish(speed as int, root as int);
        assert(root * speed == speed * root) by (nonlinear_arith);
        vstd::arithmetic::div_mod::lemma_div_pos_is_pos(m * speed * speed, root as int);
        if d < 0 {
            assert(-(d * speed * speed) == m * speed * speed) by (nonlinear_arith)
                requires
                    m == -d,
            ;
        } else {
            assert(d * speed * speed == m * speed * speed);
        }
    }
    proof {
        assert(-0x4000_0000_0000_0000 <= d * speed <= 0x4000_0000_0000_0000) by (nonlinear_arith)
            requires
                -0x400_0000_0000 <= d <= 0x400_0000_0000,
                0 <= speed <= 0x10_0000,
        ;
    }
    let p: i128 = (d as i128) * (speed as i128) * (speed as i128);
    div_toward_zero(p, root) as i64
}

/// `dir` normalised and scaled to `speed` (zero for a zero direction or
/// speed).
pub fn unit_scaled(dir: &Vec2, speed: i64) -> (r: Vec2)
    requires
        within(*dir, 4 * COORD_LIMIT),
        0 <= speed <= MAX_SPEED,
    ensures
        r == heading(*dir, speed as int),
        r.wf(),
{
    let n = dir.len_sq();
    proof {
        assert(n <= 32 * COORD_LIMIT * COORD_LIMIT) by (nonlinear_arith)
            requires
                n == dir.x * dir.x + dir.y * dir.y,
                -4 * COORD_LIMIT <= dir.x <= 4 * COORD_LIMIT,
                -4 * COORD_LIMIT <= dir.y <= 4 * COORD_LIMIT,
        ;
        assert(n * speed * speed <= 32 * COORD_LIMIT * COORD_LIMIT * MAX_SPEED * MAX_SPEED) by (nonlinear_arith)
            requires
                0 <= n <= 32 * COORD_LIMIT * COORD_LIMIT,
                0 <= speed <= MAX_SPEED,
        ;
        assert(n * speed * speed >= 0) by (nonlinear_arith)
            requires
                n >= 0,
                speed >= 0,
        ;
    }
    proof {
        assert(n * speed <= 32 * COORD_LIMIT * COORD_LIMIT * MAX_SPEED) by (nonlinear_arith)
            requires
                0 <= n <= 32 * COORD_LIMIT * COORD_LIMIT,
                0 <= speed <= MAX_SPEED,
        ;
        assert(n * speed >= 0) by (nonlinear_arith)
            requires
                n >= 0,
                speed >= 0,
        ;
    }
    let n2: u128 = (n as u128) * (speed as u128) * (speed as u128);
    let root = isqrt(n2);
    proof {
        if root >= 0x8000_0000_0000_0000 {
            assert(root * root >= 0x4000_0000_0000_0000_0000_0000_0000_0000) by (nonlinear_arith)
                requires
                    root >= 0x8000_0000_0000_0000,
            ;
        }
    }
    proof {
        let ls = len_sq(*dir) * speed * speed;
        assert(n2 == ls);
        lemma_isqrt_unique(ls, root as int, root_of(ls));
        let sx = dir.x * speed;
        let sy = dir.y * speed;
        assert(sx * sx <= ls && sy * sy <= ls) by (nonlinear_arith)
            requires
                sx == dir.x * speed,
                sy == dir.y * speed,
                ls == (dir.x * dir.x + dir.y * dir.y) * speed * speed,
        ;
        lemma_component_le_root(sx, ls, root as int);
        lemma_component_le_root(sy, ls, root as int);
        assert(abs(sx) == abs(dir.x as int) * speed && abs(sy) == abs(dir.y as int) * speed) by (nonlinear_arith)
            requires
                sx == dir.x * speed,
                sy == dir.y * speed,
                speed >= 0,
        ;
    }
    if root == 0 {
        return Vec2::zero();
    }
    let x = scale_by_root(dir.x, speed, root as i128);
    let y = scale_by_root(dir.y, speed, root as i128);
    Vec2 { x, y }
}

} // verus!
