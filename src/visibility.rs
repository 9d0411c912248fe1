//! The lit region seen from a source point: rays cast at every rectangle
//! corner and just past the silhouette corners, their nearest hits sorted by
//! angle, and the triangle fan that covers them.
use vstd::prelude::*;
use vstd::seq_lib::to_multiset_insert;
use crate::geometry::{corner, cross, div_toward_zero, div_trunc, dot, within, Vec2, COORD_LIMIT};
use crate::raycast::{
    all_occluders_wf, lemma_mul_bound, nearest_contact, nearest_hit, nearest_time, on_boundary, scaled_point,
    source_ok, Occluder, DIR_LIMIT,
};

verus! {

/// How a ray was chosen.
#[derive(Clone, Copy, Debug, PartialEq, Eq)]
pub enum RayKind {
    /// Aimed exactly at a corner.
    Primary,
    /// Turned a little counter-clockwise past a silhouette corner.
    Counterclockwise,
    /// Turned a little clockwise past a silhouette corner.
    Clockwise,
}

impl RayKind {
    /// Whether the ray was turned past a corner rather than aimed at it.
    pub fn is_aux(&self) -> (r: bool)
        ensures
            r == !(*self is Primary),
    {
        !matches!(self, RayKind::Primary)
    }
}

/// A ray to cast from the source.
#[derive(Clone, Copy, Debug, PartialEq, Eq)]
pub struct Ray {
    pub dir: Vec2,
    pub kind: RayKind,
}

/// Where a ray first met a rectangle.
#[derive(Clone, Copy, Debug, PartialEq, Eq)]
pub struct Intersection {
    pub dir: Vec2,
    pub kind: RayKind,
    pub point: Vec2,
}

/// One triangle of the lit fan.
#[derive(Clone, Copy, Debug, PartialEq, Eq)]
pub struct Triangle {
    pub a: Vec2,
    pub b: Vec2,
    pub c: Vec2,
}

/// `d` points into the upper half-turn of angles `(0, pi]`, in the sense of
/// `atan2(d.y, d.x)`; the zero vector counts as angle 0.
pub open spec fn upper_half(d: Vec2) -> bool {
    d.y > 0 || (d.y == 0 && d.x < 0)
}

/// The angle of `a` is smaller than that of `b`, angles taken in `(-pi, pi]`.
pub open spec fn angle_lt(a: Vec2, b: Vec2) -> bool {
    (!upper_half(a) && upper_half(b)) || (upper_half(a) == upper_half(b) && cross(a, b) > 0)
}

/// The intersections are in order of non-decreasing angle.
pub open spec fn sorted_by_angle(s: Seq<Intersection>) -> bool {
    forall|i: int| 0 <= i < s.len() - 1 ==> !angle_lt(#[trigger] s[i + 1].dir, s[i].dir)
}

/// All directions are within `DIR_LIMIT`.
pub open spec fn dirs_ok(s: Seq<Intersection>) -> bool {
    forall|i: int| 0 <= i < s.len() ==> within(#[trigger] s[i].dir, DIR_LIMIT as int)
}

/// Exact angle comparison.
pub fn angle_less(a: &Vec2, b: &Vec2) -> (r: bool)
    requires
        within(*a, DIR_LIMIT as int),
        within(*b, DIR_LIMIT as int),
    ensures
        r == angle_lt(*a, *b),
{
    let ua = a.y > 0 || (a.y == 0 && a.x < 0);
    let ub = b.y > 0 || (b.y == 0 && b.x < 0);
    if ua != ub {
        return !ua && ub;
    }
    proof {
        crate::raycast::lemma_mul_bound(a.x as int, b.y as int, DIR_LIMIT as int, DIR_LIMIT as int);
        crate::raycast::lemma_mul_bound(a.y as int, b.x as int, DIR_LIMIT as int, DIR_LIMIT as int);
    }
    (a.x as i128) * (b.y as i128) - (a.y as i128) * (b.x as i128) > 0
}

/// Sorts intersections by angle; intersections of equal angle keep their
/// order.
#[verifier::rlimit(40)]
pub fn sort_by_angle(v: Vec<Intersection>) -> (r: Vec<Intersection>)
    requires
        dirs_ok(v@),
    ensures
        sorted_by_angle(r@),
        r@.to_multiset() == v@.to_multiset(),
        dirs_ok(r@),
{
    let mut r: Vec<Intersection> = Vec::new();
    let mut i: usize = 0;
    assert(v@.take(0) =~= r@);
    while i < v.len()
        invariant
            i <= v@.len(),
            dirs_ok(v@),
            dirs_ok(r@),
            sorted_by_angle(r@),
            r@.to_multiset() == v@.take(i as int).to_multiset(),
        decreases v@.len() - i,
    {
        let x = v[i];
        let mut j: usize = r.len();
        while j > 0
            invariant
                j <= r@.len(),
                dirs_ok(r@),
                within(x.dir, DIR_LIMIT as int),
                j < r@.len() ==> angle_lt(x.dir, r@[j as int].dir),
            ensures
                j <= r@.len(),
                j < r@.len() ==> angle_lt(x.dir, r@[j as int].dir),
                j > 0 ==> !angle_lt(x.dir, r@[j - 1].dir),
            decreases j,
        {
            if !angle_less(&x.dir, &r[j - 1].dir) {
                break;
            }
            j -= 1;
        }
        let ghost old_r = r@;
        r.insert(j, x);
        proof {
            to_multiset_insert(old_r, j as int, x);
            assert(v@.take(i + 1) =~= v@.take(i as int).push(x));
            vstd::seq_lib::to_multiset_build(v@.take(i as int), x);
            assert forall|k: int| 0 <= k < r@.len() - 1 implies !angle_lt(#[trigger] r@[k + 1].dir, r@[k].dir) by {
                if k + 1 < j {
                    assert(r@[k + 1] == old_r[k + 1] && r@[k] == old_r[k]);
                } else if k + 1 == j {
                    assert(r@[k] == old_r[k]);
                    assert(r@[k + 1] == x);
                } else if k == j {
                    assert(r@[k + 1] == old_r[k]);
                    assert(r@[k] == x);
                    lemma_cross_antisym(x.dir, old_r[k].dir);
                } else {
                    assert(r@[k + 1] == old_r[k] && r@[k] == old_r[k - 1]);
                    let k1 = k - 1;
                    assert(!angle_lt(old_r[k1 + 1].dir, old_r[k1].dir));
                }
            }
            assert forall|k: int| 0 <= k < r@.len() implies within(#[trigger] r@[k].dir, DIR_LIMIT as int) by {
                if k < j {
                    assert(r@[k] == old_r[k]);
                } else if k > j {
                    assert(r@[k] == old_r[k - 1]);
                }
            }
        }
        i += 1;
    }
    assert(v@.take(v@.len() as int) =~= v@);
    r
}

/// The fan over `hits` around `source`: a triangle for each consecutive
/// pair of hits, then one closing the first and the last.
pub open spec fn fan_triangle(hits: Seq<Intersection>, source: Vec2, i: int) -> Triangle {
    if i < hits.len() - 1 {
        Triangle { a: hits[i].point, b: hits[i + 1].point, c: source }
    } else {
        Triangle { a: hits[0].point, b: hits[hits.len() - 1].point, c: source }
    }
}

/// Triangulates the lit region: one triangle per consecutive pair of hits,
/// plus the one that closes the fan; none for no hits.
pub fn build_fan(hits: &Vec<Intersection>, source: Vec2) -> (r: Vec<Triangle>)
    ensures
        r@.len() == hits@.len(),
        forall|i: int| 0 <= i < r@.len() ==> #[trigger] r@[i] == fan_triangle(hits@, source, i),
{
    let mut r: Vec<Triangle> = Vec::new();
    let n = hits.len();
    if n == 0 {
        return r;
    }
    let mut i: usize = 0;
    while i + 1 < n
        invariant
            n == hits@.len(),
            n > 0,
            i < n,
            r@.len() == i,
            forall|k: int| 0 <= k < i ==> #[trigger] r@[k] == fan_triangle(hits@, source, k),
        decreases n - i,
    {
        r.push(Triangle { a: hits[i].point, b: hits[i + 1].point, c: source });
        i += 1;
    }
    r.push(Triangle { a: hits[0].point, b: hits[n - 1].point, c: source });
    r
}

/// The ray turned just past a corner `c` (previous corner `p`, next corner
/// `q` in winding order) seen along `d`: counter-clockwise when the edge
/// into the corner runs along the ray's left normal and the edge out of it
/// against it, clockwise in the mirrored case, none otherwise. The turn has
/// tangent `1 / spread`.
pub open spec fn aux_ray(c: Vec2, p: Vec2, q: Vec2, d: Vec2, spread: int) -> Option<Ray> {
    let axis = Vec2 { x: (-d.y) as i64, y: d.x };
    let turn_in = dot(Vec2 { x: (c.x - p.x) as i64, y: (c.y - p.y) as i64 }, axis);
    let turn_out = dot(Vec2 { x: (q.x - c.x) as i64, y: (q.y - c.y) as i64 }, axis);
    if turn_in >= 0 && turn_out <= 0 {
        Some(Ray {
            dir: Vec2 { x: (spread * d.x - d.y) as i64, y: (spread * d.y + d.x) as i64 },
            kind: RayKind::Counterclockwise,
        })
    } else if turn_in <= 0 && turn_out >= 0 {
        Some(Ray {
            dir: Vec2 { x: (spread * d.x + d.y) as i64, y: (spread * d.y - d.x) as i64 },
            kind: RayKind::Clockwise,
        })
    } else {
        None
    }
}

/// Largest tangent denominator of the auxiliary turn.
pub const MAX_SPREAD: i64 = 1024;

/// Executable `aux_ray`.
pub fn auxiliary_ray(c: &Vec2, p: &Vec2, q: &Vec2, d: &Vec2, spread: i64) -> (r: Option<Ray>)
    requires
        within(*c, 3 * COORD_LIMIT),
        within(*p, 3 * COORD_LIMIT),
        within(*q, 3 * COORD_LIMIT),
        within(*d, 5 * COORD_LIMIT),
        1 <= spread <= MAX_SPREAD,
    ensures
        r == aux_ray(*c, *p, *q, *d, spread as int),
        r is Some ==> within(r.unwrap().dir, DIR_LIMIT as int),
{
    let axis = d.perp();
    let into = c.minus(p);
    let out = q.minus(c);
    let turn_in = into.dot(&axis);
    let turn_out = out.dot(&axis);
    proof {
        crate::raycast::lemma_mul_bound(spread as int, d.x as int, MAX_SPREAD as int, 5 * COORD_LIMIT);
        crate::raycast::lemma_mul_bound(spread as int, d.y as int, MAX_SPREAD as int, 5 * COORD_LIMIT);
    }
    if turn_in >= 0 && turn_out <= 0 {
        Some(Ray {
            dir: Vec2 { x: spread * d.x - d.y, y: spread * d.y + d.x },
            kind: RayKind::Counterclockwise,
        })
    } else if turn_in <= 0 && turn_out >= 0 {
        Some(Ray {
            dir: Vec2 { x: spread * d.x + d.y, y: spread * d.y - d.x },
            kind: RayKind::Clockwise,
        })
    } else {
        None
    }
}

/// Swapping the arguments of a cross product negates it.
proof fn lemma_cross_antisym(a: Vec2, b: Vec2)
    ensures
        cross(a, b) == -cross(b, a),
{
    assert(a.x * b.y == b.y * a.x && a.y * b.x == b.x * a.y) by (nonlinear_arith);
}

/// Corner `m` of the occluders: corner `m % 4` of occluder `m / 4`.
pub open spec fn corner_of(occs: Seq<Occluder>, m: int) -> Vec2 {
    corner(occs[m / 4].rect, occs[m / 4].center, m % 4)
}

/// The corner before corner `m` in winding order.
pub open spec fn prev_corner_of(occs: Seq<Occluder>, m: int) -> Vec2 {
    corner(occs[m / 4].rect, occs[m / 4].center, m % 4 + 3)
}

/// The corner after corner `m` in winding order.
pub open spec fn next_corner_of(occs: Seq<Occluder>, m: int) -> Vec2 {
    corner(occs[m / 4].rect, occs[m / 4].center, m % 4 + 1)
}

/// The vector from `s` to `c`.
pub open spec fn toward(s: Vec2, c: Vec2) -> Vec2 {
    Vec2 { x: (c.x - s.x) as i64, y: (c.y - s.y) as i64 }
}

/// The ray aimed from `s` at corner `k` first meets the occluders exactly at
/// corner `m`.
pub open spec fn sees_corner(occs: Seq<Occluder>, s: Vec2, k: int, m: int) -> bool {
    let d = toward(s, corner_of(occs, k));
    let t = nearest_time(occs, s, d);
    &&& t is Some
    &&& scaled_point(s, d, t.unwrap().0, t.unwrap().1) == (
        corner_of(occs, m).x * t.unwrap().1,
        corner_of(occs, m).y * t.unwrap().1,
    )
}

/// The intersection recorded when the ray at corner `k` reaches corner `m`.
pub open spec fn primary_hit(occs: Seq<Occluder>, s: Vec2, k: int, m: int) -> Intersection {
    Intersection { dir: toward(s, corner_of(occs, k)), kind: RayKind::Primary, point: corner_of(occs, m) }
}

/// The auxiliary ray past corner `m`, if it is a silhouette corner.
pub open spec fn aux_of(occs: Seq<Occluder>, s: Vec2, m: int, spread: int) -> Option<Ray> {
    aux_ray(
        corner_of(occs, m),
        prev_corner_of(occs, m),
        next_corner_of(occs, m),
        toward(s, corner_of(occs, m)),
        spread,
    )
}

/// The point reached at time `t` along the ray, each coordinate rounded
/// toward zero.
pub open spec fn landing(s: Vec2, d: Vec2, t: (int, int)) -> Vec2 {
    let p = scaled_point(s, d, t.0, t.1);
    Vec2 { x: div_trunc(p.0, t.1) as i64, y: div_trunc(p.1, t.1) as i64 }
}

/// Where ray `a` first meets the occluders, if it does.
pub open spec fn aux_hit(occs: Seq<Occluder>, s: Vec2, a: Ray) -> Option<Intersection> {
    match nearest_time(occs, s, a.dir) {
        Some(t) => Some(Intersection { dir: a.dir, kind: a.kind, point: landing(s, a.dir, t) }),
        None => None,
    }
}

/// `x` is a primary intersection: a corner that the ray aimed at some
/// corner reaches first.
pub open spec fn is_primary_hit(occs: Seq<Occluder>, s: Vec2, x: Intersection) -> bool {
    exists|k: int, m: int|
        #![trigger sees_corner(occs, s, k, m)]
        0 <= k < 4 * occs.len() && 0 <= m < 4 * occs.len() && sees_corner(occs, s, k, m) && x
            == primary_hit(occs, s, k, m)
}

/// `a` is the auxiliary ray of a corner that some primary ray reaches.
pub open spec fn is_aux_ray(occs: Seq<Occluder>, s: Vec2, spread: int, a: Ray) -> bool {
    exists|k: int, m: int|
        #![trigger sees_corner(occs, s, k, m)]
        0 <= k < 4 * occs.len() && 0 <= m < 4 * occs.len() && sees_corner(occs, s, k, m) && aux_of(
            occs,
            s,
            m,
            spread,
        ) == Some(a)
}

/// `x` is one of the intersections that outline the lit region.
pub open spec fn lit_hit(occs: Seq<Occluder>, s: Vec2, spread: int, x: Intersection) -> bool {
    is_primary_hit(occs, s, x) || exists|a: Ray| #[trigger]
        is_aux_ray(occs, s, spread, a) && aux_hit(occs, s, a) == Some(x)
}

/// Corner `i` (below 8, taken modulo 4) of an occluder.
fn corner_point(o: &Occluder, i: usize) -> (r: Vec2)
    requires
        o.wf(),
        i < 8,
    ensures
        r == corner(o.rect, o.center, i as int),
        within(r, 3 * COORD_LIMIT),
{
    let k = i % 4;
    let x = if k == 0 || k == 3 { o.center.x - o.rect.half_w } else { o.center.x + o.rect.half_w };
    let y = if k == 0 || k == 1 { o.center.y - o.rect.half_h } else { o.center.y + o.rect.half_h };
    Vec2 { x, y }
}

/// Rounding toward zero keeps a quotient between bounds that hold of it.
proof fn lemma_div_trunc_between(x: int, den: int, lo: int, hi: int)
    requires
        den > 0,
        lo * den <= x <= hi * den,
    ensures
        lo <= div_trunc(x, den) <= hi,
{
    if x >= 0 {
        let q = x / den;
        vstd::arithmetic::div_mod::lemma_fundamental_div_mod(x, den);
        assert(lo <= q && q <= hi) by (nonlinear_arith)
            requires
                x == den * q + x % den,
                0 <= x % den < den,
                lo * den <= x <= hi * den,
                den > 0,
        ;
    } else {
        let q = (-x) / den;
        vstd::arithmetic::div_mod::lemma_fundamental_div_mod(-x, den);
        assert(-hi <= q && q <= -lo) by (nonlinear_arith)
            requires
                -x == den * q + (-x) % den,
                0 <= (-x) % den < den,
                lo * den <= x <= hi * den,
                den > 0,
        ;
    }
}

/// Executable `landing` at a nearest contact.
fn landing_point(occs: &Vec<Occluder>, s: &Vec2, d: &Vec2, t: (i128, i128)) -> (r: Vec2)
    requires
        all_occluders_wf(occs@),
        source_ok(*s),
        within(*d, DIR_LIMIT as int),
        0 <= t.0 <= 8 * COORD_LIMIT,
        0 < t.1 <= DIR_LIMIT,
        nearest_contact(occs@, *s, *d, t.0 as int, t.1 as int),
    ensures
        r == landing(*s, *d, (t.0 as int, t.1 as int)),
        within(r, 3 * COORD_LIMIT),
{
    let ghost j = choose|j: int| 0 <= j < occs@.len() && on_boundary(#[trigger] occs@[j], *s, *d, t.0 as int, t.1 as int);
    let ghost o = occs@[j];
    proof {
        lemma_mul_bound(s.x as int, t.1 as int, 2 * COORD_LIMIT, DIR_LIMIT as int);
        lemma_mul_bound(s.y as int, t.1 as int, 2 * COORD_LIMIT, DIR_LIMIT as int);
        lemma_mul_bound(d.x as int, t.0 as int, DIR_LIMIT as int, 8 * COORD_LIMIT);
        lemma_mul_bound(d.y as int, t.0 as int, DIR_LIMIT as int, 8 * COORD_LIMIT);
        let p = scaled_point(*s, *d, t.0 as int, t.1 as int);
        lemma_div_trunc_between(p.0, t.1 as int, o.lo_x(), o.hi_x());
        lemma_div_trunc_between(p.1, t.1 as int, o.lo_y(), o.hi_y());
    }
    let px = (s.x as i128) * t.1 + (d.x as i128) * t.0;
    let py = (s.y as i128) * t.1 + (d.y as i128) * t.0;
    let x = div_toward_zero(px, t.1);
    let y = div_toward_zero(py, t.1);
    Vec2 { x: x as i64, y: y as i64 }
}

/// Whether time `t` of the ray from `s` along `d` lands exactly on `c`.
fn lands_on(s: &Vec2, d: &Vec2, t: (i128, i128), c: &Vec2) -> (r: bool)
    requires
        source_ok(*s),
        within(*d, DIR_LIMIT as int),
        within(*c, 3 * COORD_LIMIT),
        0 <= t.0 <= 8 * COORD_LIMIT,
        0 < t.1 <= DIR_LIMIT,
    ensures
        r == (scaled_point(*s, *d, t.0 as int, t.1 as int) == (c.x * t.1, c.y * t.1)),
{
    proof {
        lemma_mul_bound(s.x as int, t.1 as int, 2 * COORD_LIMIT, DIR_LIMIT as int);
        lemma_mul_bound(s.y as int, t.1 as int, 2 * COORD_LIMIT, DIR_LIMIT as int);
        lemma_mul_bound(d.x as int, t.0 as int, DIR_LIMIT as int, 8 * COORD_LIMIT);
        lemma_mul_bound(d.y as int, t.0 as int, DIR_LIMIT as int, 8 * COORD_LIMIT);
        lemma_mul_bound(c.x as int, t.1 as int, 3 * COORD_LIMIT, DIR_LIMIT as int);
        lemma_mul_bound(c.y as int, t.1 as int, 3 * COORD_LIMIT, DIR_LIMIT as int);
    }
    (s.x as i128) * t.1 + (d.x as i128) * t.0 == (c.x as i128) * t.1 && (s.y as i128) * t.1 + (d.y as i128)
        * t.0 == (c.y as i128) * t.1
}

/// A pushed sequence still contains what it contained.
proof fn lemma_push_keeps<A>(s: Seq<A>, v: A, x: A)
    requires
        s.contains(x),
    ensures
        s.push(v).contains(x),
{
    let i = choose|i: int| 0 <= i < s.len() && s[i] == x;
    assert(s.push(v)[i] == x);
}

/// A pushed sequence contains the pushed value.
proof fn lemma_push_has<A>(s: Seq<A>, v: A)
    ensures
        s.push(v).contains(v),
{
    assert(s.push(v)[s.len() as int] == v);
}

/// If the ray at corner `k` reaches corner `m`, its primary intersection is
/// in `out` and the auxiliary ray of `m`, if any, is in `auxs`.
pub open spec fn covered(
    occs: Seq<Occluder>,
    s: Vec2,
    spread: int,
    out: Seq<Intersection>,
    auxs: Seq<Ray>,
    k: int,
    m: int,
) -> bool {
    sees_corner(occs, s, k, m) ==> {
        &&& out.contains(primary_hit(occs, s, k, m))
        &&& (aux_of(occs, s, m, spread) is Some ==> auxs.contains(aux_of(occs, s, m, spread).unwrap()))
    }
}

/// Every element of `out` is a primary intersection.
pub open spec fn all_primary(occs: Seq<Occluder>, s: Vec2, out: Seq<Intersection>) -> bool {
    forall|q: int| 0 <= q < out.len() ==> is_primary_hit(occs, s, #[trigger] out[q])
}

/// Every element of `auxs` is an auxiliary ray of a reached corner.
pub open spec fn all_aux(occs: Seq<Occluder>, s: Vec2, spread: int, auxs: Seq<Ray>) -> bool {
    forall|q: int| 0 <= q < auxs.len() ==> is_aux_ray(occs, s, spread, #[trigger] auxs[q])
}

/// Records, for the ray at corner `k`, every corner it reaches first.
#[verifier::rlimit(40)]
fn record_corner_hits(
    occs: &Vec<Occluder>,
    s: &Vec2,
    spread: i64,
    k: usize,
    out: &mut Vec<Intersection>,
    auxs: &mut Vec<Ray>,
)
    requires
        all_occluders_wf(occs@),
        source_ok(*s),
        1 <= spread <= MAX_SPREAD,
        4 * occs@.len() <= usize::MAX,
        k < 4 * occs@.len(),
        all_primary(occs@, *s, old(out)@),
        all_aux(occs@, *s, spread as int, old(auxs)@),
        dirs_ok(old(out)@),
        forall|i: int| 0 <= i < old(auxs)@.len() ==> within(#[trigger] old(auxs)@[i].dir, DIR_LIMIT as int),
        forall|k1: int, m1: int|
            0 <= k1 < k && 0 <= m1 < 4 * occs@.len() ==> #[trigger] covered(
                occs@,
                *s,
                spread as int,
                old(out)@,
                old(auxs)@,
                k1,
                m1,
            ),
    ensures
        all_primary(occs@, *s, final(out)@),
        all_aux(occs@, *s, spread as int, final(auxs)@),
        dirs_ok(final(out)@),
        forall|i: int| 0 <= i < final(auxs)@.len() ==> within(#[trigger] final(auxs)@[i].dir, DIR_LIMIT as int),
        forall|k1: int, m1: int|
            0 <= k1 <= k && 0 <= m1 < 4 * occs@.len() ==> #[trigger] covered(
                occs@,
                *s,
                spread as int,
                final(out)@,
                final(auxs)@,
                k1,
                m1,
            ),
{
    let n4 = 4 * occs.len();
    let aim = corner_point(&occs[k / 4], k % 4);
    let d = aim.minus(s);
    assert(d == toward(*s, corner_of(occs@, k as int)));
    let hit = nearest_hit(occs, s, &d);
    let ghost out0 = out@;
    let ghost auxs0 = auxs@;
    match hit {
        None => {
            assert forall|k1: int, m1: int|
                0 <= k1 <= k && 0 <= m1 < 4 * occs@.len() implies #[trigger] covered(
                    occs@,
                    *s,
                    spread as int,
                    out@,
                    auxs@,
                    k1,
                    m1,
                ) by {
                if k1 < k {
                    assert(covered(occs@, *s, spread as int, out0, auxs0, k1, m1));
                }
            }
        },
        Some(t) => {
            let mut m: usize = 0;
            while m < n4
                invariant
                    n4 == 4 * occs@.len(),
                    m <= n4,
                    all_occluders_wf(occs@),
                    source_ok(*s),
                    1 <= spread <= MAX_SPREAD,
                    k < n4,
                    d == toward(*s, corner_of(occs@, k as int)),
                    within(d, DIR_LIMIT as int),
                    time_of_pair(t) == nearest_time(occs@, *s, d),
                    0 <= t.0 <= 8 * COORD_LIMIT,
                    0 < t.1 <= DIR_LIMIT,
                    all_primary(occs@, *s, out@),
                    all_aux(occs@, *s, spread as int, auxs@),
                    dirs_ok(out@),
                    forall|i: int| 0 <= i < auxs@.len() ==> within(#[trigger] auxs@[i].dir, DIR_LIMIT as int),
                    forall|k1: int, m1: int|
                        0 <= k1 < 4 * occs@.len() && 0 <= m1 < 4 * occs@.len() && (k1 < k || (k1 == k && m1 < m))
                            ==> #[trigger] covered(occs@, *s, spread as int, out@, auxs@, k1, m1),
                decreases n4 - m,
            {
                let o = &occs[m / 4];
                let c = corner_point(o, m % 4);
                assert(c == corner_of(occs@, m as int));
                let ghost out1 = out@;
                let ghost auxs1 = auxs@;
                if lands_on(s, &d, t, &c) {
                    let x = Intersection { dir: d, kind: RayKind::Primary, point: c };
                    assert(sees_corner(occs@, *s, k as int, m as int));
                    assert(x == primary_hit(occs@, *s, k as int, m as int));
                    out.push(x);
                    let p = corner_point(o, m % 4 + 3);
                    let q = corner_point(o, m % 4 + 1);
                    assert((m % 4 + 3) as int == m as int % 4 + 3);
                    assert(p == prev_corner_of(occs@, m as int));
                    assert(q == next_corner_of(occs@, m as int));
                    let toward_c = c.minus(s);
                    let a = auxiliary_ray(&c, &p, &q, &toward_c, spread);
                    assert(a == aux_of(occs@, *s, m as int, spread as int));
                    if let Some(ray) = a {
                        auxs.push(ray);
                    }
                    proof {
                        lemma_push_has(out1, x);
                        if a is Some {
                            lemma_push_has(auxs1, a.unwrap());
                        }
                        assert forall|q1: int| 0 <= q1 < out@.len() implies is_primary_hit(occs@, *s, #[trigger] out@[q1]) by {
                            if q1 < out1.len() {
                                assert(out@[q1] == out1[q1]);
                            }
                        }
                        assert forall|q1: int| 0 <= q1 < auxs@.len() implies is_aux_ray(occs@, *s, spread as int, #[trigger] auxs@[q1]) && within(auxs@[q1].dir, DIR_LIMIT as int) by {
                            if q1 < auxs1.len() {
                                assert(auxs@[q1] == auxs1[q1]);
                            }
                        }
                        assert forall|q1: int| 0 <= q1 < out@.len() implies within(#[trigger] out@[q1].dir, DIR_LIMIT as int) by {
                            if q1 < out1.len() {
                                assert(out@[q1] == out1[q1]);
                            }
                        }
                        assert forall|k1: int, m1: int|
                            0 <= k1 < 4 * occs@.len() && 0 <= m1 < 4 * occs@.len() && (k1 < k || (k1 == k && m1 < m + 1))
                                implies #[trigger] covered(occs@, *s, spread as int, out@, auxs@, k1, m1) by {
                            if k1 < k || m1 < m {
                                assert(covered(occs@, *s, spread as int, out1, auxs1, k1, m1));
                                if sees_corner(occs@, *s, k1, m1) {
                                    lemma_push_keeps(out1, x, primary_hit(occs@, *s, k1, m1));
                                    if aux_of(occs@, *s, m1, spread as int) is Some && a is Some {
                                        lemma_push_keeps(auxs1, a.unwrap(), aux_of(occs@, *s, m1, spread as int).unwrap());
                                    }
                                }
                            }
                        }
                    }
                } else {
                    proof {
                        assert(!sees_corner(occs@, *s, k as int, m as int));
                        assert forall|k1: int, m1: int|
                            0 <= k1 < 4 * occs@.len() && 0 <= m1 < 4 * occs@.len() && (k1 < k || (k1 == k && m1 < m + 1))
                                implies #[trigger] covered(occs@, *s, spread as int, out@, auxs@, k1, m1) by {
                            if k1 < k || m1 < m {
                                assert(covered(occs@, *s, spread as int, out1, auxs1, k1, m1));
                            }
                        }
                    }
                }
                m += 1;
            }
        },
    }
}

/// An exact time as a pair of integers.
pub open spec fn time_of_pair(t: (i128, i128)) -> Option<(int, int)> {
    Some((t.0 as int, t.1 as int))
}

/// Casts a ray at every corner of every occluder and, past each silhouette
/// corner that such a ray reaches first, an auxiliary ray; returns the
/// intersections that outline the region lit from `s` (unsorted). An
/// intersection is listed exactly when it is a `lit_hit`.
///
/// Contacts are computed exactly, so a ray aimed at a corner that it reaches
/// first always reports that very corner: no separate test for grazing
/// hits is needed.
#[verifier::rlimit(40)]
pub fn cast_rays(occs: &Vec<Occluder>, s: &Vec2, spread: i64) -> (r: Vec<Intersection>)
    requires
        all_occluders_wf(occs@),
        source_ok(*s),
        1 <= spread <= MAX_SPREAD,
        4 * occs@.len() <= usize::MAX,
    ensures
        forall|x: Intersection| r@.contains(x) <==> lit_hit(occs@, *s, spread as int, x),
        dirs_ok(r@),
{
    let n4 = 4 * occs.len();
    let mut out: Vec<Intersection> = Vec::new();
    let mut auxs: Vec<Ray> = Vec::new();
    let mut k: usize = 0;
    while k < n4
        invariant
            n4 == 4 * occs@.len(),
            k <= n4,
            all_occluders_wf(occs@),
            source_ok(*s),
            1 <= spread <= MAX_SPREAD,
            all_primary(occs@, *s, out@),
            all_aux(occs@, *s, spread as int, auxs@),
            dirs_ok(out@),
            forall|i: int| 0 <= i < auxs@.len() ==> within(#[trigger] auxs@[i].dir, DIR_LIMIT as int),
            forall|k1: int, m1: int|
                0 <= k1 < k && 0 <= m1 < 4 * occs@.len() ==> #[trigger] covered(
                    occs@,
                    *s,
                    spread as int,
                    out@,
                    auxs@,
                    k1,
                    m1,
                ),
        decreases n4 - k,
    {
        record_corner_hits(occs, s, spread, k, &mut out, &mut auxs);
        k += 1;
    }
    let ghost primaries = out@;
    let mut a: usize = 0;
    while a < auxs.len()
        invariant
            a <= auxs@.len(),
            all_occluders_wf(occs@),
            source_ok(*s),
            all_aux(occs@, *s, spread as int, auxs@),
            forall|i: int| 0 <= i < auxs@.len() ==> within(#[trigger] auxs@[i].dir, DIR_LIMIT as int),
            dirs_ok(out@),
            forall|q: int| 0 <= q < out@.len() ==> lit_hit(occs@, *s, spread as int, #[trigger] out@[q]),
            forall|x: Intersection| primaries.contains(x) ==> out@.contains(x),
            forall|q: int| 0 <= q < a && (#[trigger] aux_hit(occs@, *s, auxs@[q])) is Some ==> out@.contains(
                aux_hit(occs@, *s, auxs@[q]).unwrap(),
            ),
        decreases auxs@.len() - a,
    {
        let ray = auxs[a];
        let ghost out1 = out@;
        match nearest_hit(occs, s, &ray.dir) {
            Some(t) => {
                let p = landing_point(occs, s, &ray.dir, t);
                let x = Intersection { dir: ray.dir, kind: ray.kind, point: p };
                assert(aux_hit(occs@, *s, ray) == Some(x));
                out.push(x);
                proof {
                    assert(is_aux_ray(occs@, *s, spread as int, auxs@[a as int]));
                    lemma_push_has(out1, x);
                    assert forall|q: int| 0 <= q < out@.len() implies lit_hit(occs@, *s, spread as int, #[trigger] out@[q]) by {
                        if q < out1.len() {
                            assert(out@[q] == out1[q]);
                        } else {
                            assert(out@[q] == x);
                            assert(is_aux_ray(occs@, *s, spread as int, ray) && aux_hit(occs@, *s, ray) == Some(x));
                        }
                    }
                    assert forall|q: int| 0 <= q < out@.len() implies within(#[trigger] out@[q].dir, DIR_LIMIT as int) by {
                        if q < out1.len() {
                            assert(out@[q] == out1[q]);
                        }
                    }
                    assert forall|y: Intersection| primaries.contains(y) implies out@.contains(y) by {
                        lemma_push_keeps(out1, x, y);
                    }
                    assert forall|q: int| 0 <= q < a + 1 && (#[trigger] aux_hit(occs@, *s, auxs@[q])) is Some implies out@.contains(
                        aux_hit(occs@, *s, auxs@[q]).unwrap(),
                    ) by {
                        if q < a {
                            lemma_push_keeps(out1, x, aux_hit(occs@, *s, auxs@[q]).unwrap());
                        }
                    }
                }
            },
            None => {
                assert(aux_hit(occs@, *s, ray) is None);
            },
        }
        a += 1;
    }
    proof {
        assert forall|x: Intersection| lit_hit(occs@, *s, spread as int, x) implies out@.contains(x) by {
            if is_primary_hit(occs@, *s, x) {
                let (k1, m1) = choose|k1: int, m1: int|
                    #![trigger sees_corner(occs@, *s, k1, m1)]
                    0 <= k1 < 4 * occs@.len() && 0 <= m1 < 4 * occs@.len() && sees_corner(occs@, *s, k1, m1)
                        && x == primary_hit(occs@, *s, k1, m1);
                assert(covered(occs@, *s, spread as int, primaries, auxs@, k1, m1));
            } else {
                let ray = choose|ray: Ray| #[trigger]
                    is_aux_ray(occs@, *s, spread as int, ray) && aux_hit(occs@, *s, ray) == Some(x);
                let (k1, m1) = choose|k1: int, m1: int|
                    #![trigger sees_corner(occs@, *s, k1, m1)]
                    0 <= k1 < 4 * occs@.len() && 0 <= m1 < 4 * occs@.len() && sees_corner(occs@, *s, k1, m1)
                        && aux_of(occs@, *s, m1, spread as int) == Some(ray);
                assert(covered(occs@, *s, spread as int, primaries, auxs@, k1, m1));
                assert(auxs@.contains(ray));
                let q = choose|q: int| 0 <= q < auxs@.len() && auxs@[q] == ray;
                assert(aux_hit(occs@, *s, auxs@[q]) is Some);
            }
        }
        assert forall|x: Intersection| out@.contains(x) implies lit_hit(occs@, *s, spread as int, x) by {
            let q = choose|q: int| 0 <= q < out@.len() && out@[q] == x;
            assert(lit_hit(occs@, *s, spread as int, out@[q]));
        }
    }
    out
}

/// The region lit from a source: its outline sorted by angle, and the
/// triangle fan that fills it.
#[derive(Debug)]
pub struct LitRegion {
    pub hits: Vec<Intersection>,
    pub fan: Vec<Triangle>,
}

/// Computes the region lit from `s` among `occs`: the outline is exactly
/// the set of `lit_hit` intersections, sorted by angle, and the fan joins
/// consecutive ones around `s` and closes.
pub fn light_region(occs: &Vec<Occluder>, s: &Vec2, spread: i64) -> (r: LitRegion)
    requires
        all_occluders_wf(occs@),
        source_ok(*s),
        1 <= spread <= MAX_SPREAD,
        4 * occs@.len() <= usize::MAX,
    ensures
        forall|x: Intersection| r.hits@.contains(x) <==> lit_hit(occs@, *s, spread as int, x),
        sorted_by_angle(r.hits@),
        r.fan@.len() == r.hits@.len(),
        forall|i: int| 0 <= i < r.fan@.len() ==> #[trigger] r.fan@[i] == fan_triangle(r.hits@, *s, i),
{
    let raw = cast_rays(occs, s, spread);
    let ghost raw_view = raw@;
    let hits = sort_by_angle(raw);
    proof {
        assert forall|x: Intersection| hits@.contains(x) <==> lit_hit(occs@, *s, spread as int, x) by {
            vstd::seq_lib::to_multiset_contains(hits@, x);
            vstd::seq_lib::to_multiset_contains(raw_view, x);
            assert(raw_view.contains(x) <==> lit_hit(occs@, *s, spread as int, x));
        }
    }
    let fan = build_fan(&hits, *s);
    LitRegion { hits, fan }
}

/// The fan winds once around its source: walking the outline cyclically,
/// the angle never decreases except, possibly, on the closing step from
/// the last hit back to the first, and the closing triangle joins exactly
/// those two hits.
pub proof fn lemma_fan_winds_once(hits: Seq<Intersection>, source: Vec2)
    requires
        sorted_by_angle(hits),
        hits.len() >= 1,
    ensures
        forall|i: int|
            0 <= i < hits.len() && angle_lt(#[trigger] hits[(i + 1) % (hits.len() as int)].dir, hits[i].dir) ==> i
                == hits.len() - 1,
        forall|i: int|
            0 <= i < hits.len() - 1 ==> #[trigger] fan_triangle(hits, source, i) == (Triangle {
                a: hits[i].point,
                b: hits[i + 1].point,
                c: source,
            }),
        fan_triangle(hits, source, hits.len() - 1) == (Triangle {
            a: hits[0].point,
            b: hits[hits.len() - 1].point,
            c: source,
        }),
{
    let n = hits.len() as int;
    assert forall|i: int|
        0 <= i < n && angle_lt(#[trigger] hits[(i + 1) % n].dir, hits[i].dir) implies i == n - 1 by {
        if i < n - 1 {
            assert((i + 1) % n == i + 1) by {
                vstd::arithmetic::div_mod::lemma_small_mod((i + 1) as nat, n as nat);
            }
        }
    }
}

} // verus!
