//! Exact ray casting against axis-aligned rectangles. A ray from `s` along
//! `d` reaches the point `s + d * (n / den)` at time `n / den`; times are
//! kept as exact fractions.
use vstd::prelude::*;
use crate::geometry::{within, Rect, Vec2, COORD_LIMIT};

verus! {

/// Largest magnitude of a ray direction component (2^55).
pub const DIR_LIMIT: i64 = 36_028_797_018_963_968;

/// A rectangle placed in screen space.
#[derive(Clone, Copy, Debug, PartialEq, Eq)]
pub struct Occluder {
    pub center: Vec2,
    pub rect: Rect,
}

impl Occluder {
    pub open spec fn wf(self) -> bool {
        within(self.center, 2 * COORD_LIMIT) && self.rect.wf()
    }

    pub open spec fn lo_x(self) -> int {
        self.center.x - self.rect.half_w
    }

    pub open spec fn hi_x(self) -> int {
        self.center.x + self.rect.half_w
    }

    pub open spec fn lo_y(self) -> int {
        self.center.y - self.rect.half_h
    }

    pub open spec fn hi_y(self) -> int {
        self.center.y + self.rect.half_h
    }
}

/// A ray source within screen range.
pub open spec fn source_ok(s: Vec2) -> bool {
    within(s, 2 * COORD_LIMIT)
}

/// A usable ray direction: non-zero and within `DIR_LIMIT`.
pub open spec fn dir_ok(d: Vec2) -> bool {
    within(d, DIR_LIMIT as int) && !(d.x == 0 && d.y == 0)
}

/// The point of the ray at time `n / den`, scaled by `den`.
pub open spec fn scaled_point(s: Vec2, d: Vec2, n: int, den: int) -> (int, int) {
    (s.x * den + d.x * n, s.y * den + d.y * n)
}

/// The ray's point at time `n / den` lies on the boundary of `o`.
pub open spec fn on_boundary(o: Occluder, s: Vec2, d: Vec2, n: int, den: int) -> bool {
    let p = scaled_point(s, d, n, den);
    &&& n >= 0
    &&& den > 0
    &&& o.lo_x() * den <= p.0 <= o.hi_x() * den
    &&& o.lo_y() * den <= p.1 <= o.hi_y() * den
    &&& (p.0 == o.lo_x() * den || p.0 == o.hi_x() * den || p.1 == o.lo_y() * den || p.1
        == o.hi_y() * den)
}

/// `n / den` is the first time at which the ray meets the boundary of `o`.
pub open spec fn first_contact(o: Occluder, s: Vec2, d: Vec2, n: int, den: int) -> bool {
    &&& on_boundary(o, s, d, n, den)
    &&& forall|n2: int, d2: int| #[trigger] on_boundary(o, s, d, n2, d2) ==> n * d2 <= n2 * den
}

/// The ray never meets the boundary of `o`.
pub open spec fn misses(o: Occluder, s: Vec2, d: Vec2) -> bool {
    forall|n2: int, d2: int| !#[trigger] on_boundary(o, s, d, n2, d2)
}

/// When a ray's `a` coordinate, starting at `sa` and moving by `da`, reaches
/// the line `a == e`, provided its `b` coordinate is then within `[lb, hb]`.
pub open spec fn crossing(sa: int, da: int, e: int, sb: int, db: int, lb: int, hb: int) -> Option<(int, int)> {
    if da == 0 {
        None
    } else {
        let n = if da > 0 { e - sa } else { sa - e };
        let den = if da > 0 { da } else { -da };
        if n >= 0 && lb * den <= sb * den + db * n && sb * den + db * n <= hb * den {
            Some((n, den))
        } else {
            None
        }
    }
}

/// `a / b <= c / d` for positive denominators.
pub open spec fn ratio_le(a: int, b: int, c: int, d: int) -> bool {
    a * d <= c * b
}

/// The earlier of two optional times.
pub open spec fn earlier(x: Option<(int, int)>, y: Option<(int, int)>) -> Option<(int, int)> {
    match (x, y) {
        (Some(a), Some(b)) => if ratio_le(b.0, b.1, a.0, a.1) && !ratio_le(a.0, a.1, b.0, b.1) {
            Some(b)
        } else {
            Some(a)
        },
        (Some(a), None) => Some(a),
        (None, _) => y,
    }
}

/// The source itself lies on the boundary of `o`.
pub open spec fn starts_on(o: Occluder, s: Vec2) -> bool {
    on_boundary(o, s, Vec2 { x: 1, y: 0 }, 0, 1)
}

/// The ray's candidate contact times with `o`: time zero if it starts on
/// the boundary, then a crossing of each of the four edge lines.
pub open spec fn candidates(o: Occluder, s: Vec2, d: Vec2) -> Seq<Option<(int, int)>> {
    seq![
        if starts_on(o, s) { Some((0int, 1int)) } else { None },
        crossing(s.x as int, d.x as int, o.lo_x(), s.y as int, d.y as int, o.lo_y(), o.hi_y()),
        crossing(s.x as int, d.x as int, o.hi_x(), s.y as int, d.y as int, o.lo_y(), o.hi_y()),
        crossing(s.y as int, d.y as int, o.lo_y(), s.x as int, d.x as int, o.lo_x(), o.hi_x()),
        crossing(s.y as int, d.y as int, o.hi_y(), s.x as int, d.x as int, o.lo_x(), o.hi_x()),
    ]
}

/// `a / b <= c / d` and `c / d <= e / f` give `a / b <= e / f`.
pub proof fn lemma_ratio_le_trans(a: int, b: int, c: int, d: int, e: int, f: int)
    requires
        b > 0,
        d > 0,
        f > 0,
        ratio_le(a, b, c, d),
        ratio_le(c, d, e, f),
    ensures
        ratio_le(a, b, e, f),
{
    assert(a * f * d <= e * b * d) by (nonlinear_arith)
        requires
            a * d <= c * b,
            c * f <= e * d,
            b > 0,
            d > 0,
            f > 0,
    ;
    assert(a * f <= e * b) by (nonlinear_arith)
        requires
            a * f * d <= e * b * d,
            d > 0,
    ;
}

/// A crossing that exists lies on the line and is a contact time.
proof fn lemma_crossing_sound(sa: int, da: int, e: int, sb: int, db: int, lb: int, hb: int)
    requires
        crossing(sa, da, e, sb, db, lb, hb) is Some,
    ensures
        ({
            let c = crossing(sa, da, e, sb, db, lb, hb).unwrap();
            &&& c.0 >= 0
            &&& c.1 > 0
            &&& sa * c.1 + da * c.0 == e * c.1
            &&& lb * c.1 <= sb * c.1 + db * c.0 <= hb * c.1
        }),
{
    if da > 0 {
        assert(sa * da + da * (e - sa) == e * da) by (nonlinear_arith);
    } else {
        assert(sa * (-da) + da * (sa - e) == e * (-da)) by (nonlinear_arith);
    }
}

/// A contact on the line `a == e` comes no earlier than some candidate
/// contact: the crossing of that line, or, for a ray running along the line,
/// the start or the crossing of the nearer perpendicular edge.
#[verifier::rlimit(40)]
proof fn lemma_contact_on_line(
    sa: int,
    da: int,
    e: int,
    la: int,
    ha: int,
    sb: int,
    db: int,
    lb: int,
    hb: int,
    n2: int,
    d2: int,
)
    requires
        d2 > 0,
        n2 >= 0,
        la <= e <= ha,
        sa * d2 + da * n2 == e * d2,
        lb * d2 <= sb * d2 + db * n2 <= hb * d2,
    ensures
        da != 0 ==> crossing(sa, da, e, sb, db, lb, hb) is Some && ratio_le(
            crossing(sa, da, e, sb, db, lb, hb).unwrap().0,
            crossing(sa, da, e, sb, db, lb, hb).unwrap().1,
            n2,
            d2,
        ),
        da == 0 ==> sa == e && ((lb <= sb <= hb) || (sb < lb && crossing(sb, db, lb, sa, da, la, ha) is Some
            && ratio_le(
            crossing(sb, db, lb, sa, da, la, ha).unwrap().0,
            crossing(sb, db, lb, sa, da, la, ha).unwrap().1,
            n2,
            d2,
        )) || (sb > hb && crossing(sb, db, hb, sa, da, la, ha) is Some && ratio_le(
            crossing(sb, db, hb, sa, da, la, ha).unwrap().0,
            crossing(sb, db, hb, sa, da, la, ha).unwrap().1,
            n2,
            d2,
        ))),
{
    if da != 0 {
        let n = if da > 0 { e - sa } else { sa - e };
        let den = if da > 0 { da } else { -da };
        // n / den == n2 / d2
        assert(n * d2 == n2 * den) by (nonlinear_arith)
            requires
                sa * d2 + da * n2 == e * d2,
                n == (if da > 0 { e - sa } else { sa - e }),
                den == (if da > 0 { da } else { -da }),
        ;
        assert(n >= 0) by (nonlinear_arith)
            requires
                n * d2 == n2 * den,
                d2 > 0,
                n2 >= 0,
                den > 0,
        ;
        // scale the b-range check from d2 to den
        assert(lb * den <= sb * den + db * n && sb * den + db * n <= hb * den) by (nonlinear_arith)
            requires
                n * d2 == n2 * den,
                lb * d2 <= sb * d2 + db * n2 <= hb * d2,
                d2 > 0,
                den > 0,
        ;
    } else {
        assert(sa * d2 == e * d2);
        assert(sa == e) by (nonlinear_arith)
            requires
                sa * d2 == e * d2,
                d2 > 0,
        ;
        if sb < lb {
            assert(db * n2 > 0) by (nonlinear_arith)
                requires
                    lb * d2 <= sb * d2 + db * n2,
                    sb < lb,
                    d2 > 0,
            ;
            assert(db > 0) by (nonlinear_arith)
                requires
                    db * n2 > 0,
                    n2 >= 0,
            ;
            let n = lb - sb;
            assert(la * db <= sa * db + da * n && sa * db + da * n <= ha * db) by (nonlinear_arith)
                requires
                    da == 0,
                    la <= sa <= ha,
                    db > 0,
            ;
            assert(n * d2 <= n2 * db) by (nonlinear_arith)
                requires
                    lb * d2 <= sb * d2 + db * n2,
                    n == lb - sb,
            ;
        } else if sb > hb {
            assert(db * n2 < 0) by (nonlinear_arith)
                requires
                    sb * d2 + db * n2 <= hb * d2,
                    sb > hb,
                    d2 > 0,
            ;
            assert(db < 0) by (nonlinear_arith)
                requires
                    db * n2 < 0,
                    n2 >= 0,
            ;
            let n = sb - hb;
            assert(la * (-db) <= sa * (-db) + da * n && sa * (-db) + da * n <= ha * (-db))
                by (nonlinear_arith)
                requires
                    da == 0,
                    la <= sa <= ha,
                    db < 0,
            ;
            assert(n * d2 <= n2 * (-db)) by (nonlinear_arith)
                requires
                    sb * d2 + db * n2 <= hb * d2,
                    n == sb - hb,
            ;
        }
    }
}

/// The earliest of the candidate contact times.
pub open spec fn contact_time(o: Occluder, s: Vec2, d: Vec2) -> Option<(int, int)> {
    let c = candidates(o, s, d);
    earlier(earlier(earlier(earlier(c[0], c[1]), c[2]), c[3]), c[4])
}

/// An optional time with a positive denominator.
pub open spec fn time_ok(t: Option<(int, int)>) -> bool {
    t is Some ==> t.unwrap().1 > 0
}

proof fn lemma_earlier(x: Option<(int, int)>, y: Option<(int, int)>)
    requires
        time_ok(x),
        time_ok(y),
    ensures
        time_ok(earlier(x, y)),
        earlier(x, y) is Some <==> (x is Some || y is Some),
        earlier(x, y) is Some ==> (earlier(x, y) == x || earlier(x, y) == y),
        x is Some ==> ratio_le(earlier(x, y).unwrap().0, earlier(x, y).unwrap().1, x.unwrap().0, x.unwrap().1),
        y is Some ==> ratio_le(earlier(x, y).unwrap().0, earlier(x, y).unwrap().1, y.unwrap().0, y.unwrap().1),
{
}

/// The earliest candidate is at or before every candidate, and is one of them.
proof fn lemma_contact_time_min(o: Occluder, s: Vec2, d: Vec2)
    requires
        forall|i: int| 0 <= i < 5 ==> time_ok(#[trigger] candidates(o, s, d)[i]),
    ensures
        time_ok(contact_time(o, s, d)),
        contact_time(o, s, d) is Some <==> exists|i: int| 0 <= i < 5 && #[trigger] candidates(o, s, d)[i] is Some,
        contact_time(o, s, d) is Some ==> exists|i: int| 0 <= i < 5 && #[trigger] candidates(o, s, d)[i] == contact_time(o, s, d),
        forall|i: int| 0 <= i < 5 && #[trigger] candidates(o, s, d)[i] is Some ==> ratio_le(
            contact_time(o, s, d).unwrap().0,
            contact_time(o, s, d).unwrap().1,
            candidates(o, s, d)[i].unwrap().0,
            candidates(o, s, d)[i].unwrap().1,
        ),
{
    let c = candidates(o, s, d);
    assert(time_ok(c[0]) && time_ok(c[1]) && time_ok(c[2]) && time_ok(c[3]) && time_ok(c[4]));
    let e1 = earlier(c[0], c[1]);
    let e2 = earlier(e1, c[2]);
    let e3 = earlier(e2, c[3]);
    let e4 = earlier(e3, c[4]);
    lemma_earlier(c[0], c[1]);
    lemma_earlier(e1, c[2]);
    lemma_earlier(e2, c[3]);
    lemma_earlier(e3, c[4]);
    if e4 is Some {
        let t = e4.unwrap();
        assert forall|i: int| 0 <= i < 5 && #[trigger] c[i] is Some implies ratio_le(t.0, t.1, c[i].unwrap().0, c[i].unwrap().1) by {
            if i <= 3 {
                let t3 = e3.unwrap();
                if i <= 2 {
                    let t2 = e2.unwrap();
                    if i <= 1 {
                        let t1 = e1.unwrap();
                        lemma_ratio_le_trans(t2.0, t2.1, t1.0, t1.1, c[i].unwrap().0, c[i].unwrap().1);
                    }
                    lemma_ratio_le_trans(t3.0, t3.1, t2.0, t2.1, c[i].unwrap().0, c[i].unwrap().1);
                }
                lemma_ratio_le_trans(t.0, t.1, t3.0, t3.1, c[i].unwrap().0, c[i].unwrap().1);
            }
        }
        if e4 == c[4] {
            assert(c[4] == e4);
        } else if e3 == c[3] {
            assert(c[3] == e4);
        } else if e2 == c[2] {
            assert(c[2] == e4);
        } else if e1 == c[1] {
            assert(c[1] == e4);
        } else {
            assert(c[0] == e4);
        }
    } else {
        assert(c[0] is None && c[1] is None && c[2] is None && c[3] is None && c[4] is None);
    }
}

/// Every candidate that exists is a contact with the boundary.
proof fn lemma_candidates_on_boundary(o: Occluder, s: Vec2, d: Vec2)
    requires
        o.wf(),
    ensures
        forall|i: int| 0 <= i < 5 ==> time_ok(#[trigger] candidates(o, s, d)[i]),
        forall|i: int| 0 <= i < 5 && #[trigger] candidates(o, s, d)[i] is Some ==> on_boundary(
            o,
            s,
            d,
            candidates(o, s, d)[i].unwrap().0,
            candidates(o, s, d)[i].unwrap().1,
        ),
{
    let c = candidates(o, s, d);
    assert forall|i: int| 0 <= i < 5 && #[trigger] c[i] is Some implies on_boundary(o, s, d, c[i].unwrap().0, c[i].unwrap().1) && time_ok(c[i]) by {
        let n = c[i].unwrap().0;
        let den = c[i].unwrap().1;
        if i == 0 {
            assert(d.x * 0 == 0 && d.y * 0 == 0);
        } else if i <= 2 {
            let e = if i == 1 { o.lo_x() } else { o.hi_x() };
            lemma_crossing_sound(s.x as int, d.x as int, e, s.y as int, d.y as int, o.lo_y(), o.hi_y());
            assert(o.lo_x() * den <= e * den <= o.hi_x() * den) by (nonlinear_arith)
                requires
                    o.lo_x() <= e <= o.hi_x(),
                    den > 0,
            ;
        } else {
            let e = if i == 3 { o.lo_y() } else { o.hi_y() };
            lemma_crossing_sound(s.y as int, d.y as int, e, s.x as int, d.x as int, o.lo_x(), o.hi_x());
            assert(o.lo_y() * den <= e * den <= o.hi_y() * den) by (nonlinear_arith)
                requires
                    o.lo_y() <= e <= o.hi_y(),
                    den > 0,
            ;
        }
    }
    assert forall|i: int| 0 <= i < 5 implies time_ok(#[trigger] c[i]) by {
        if c[i] is Some {
            assert(on_boundary(o, s, d, c[i].unwrap().0, c[i].unwrap().1));
        }
    }
}

/// Every contact with the boundary comes at or after some candidate.
#[verifier::rlimit(40)]
proof fn lemma_contact_after_candidate(o: Occluder, s: Vec2, d: Vec2, n2: int, d2: int)
    requires
        o.wf(),
        on_boundary(o, s, d, n2, d2),
    ensures
        exists|i: int| 0 <= i < 5 && #[trigger] candidates(o, s, d)[i] is Some && ratio_le(
            candidates(o, s, d)[i].unwrap().0,
            candidates(o, s, d)[i].unwrap().1,
            n2,
            d2,
        ),
{
    let c = candidates(o, s, d);
    let p = scaled_point(s, d, n2, d2);
    let (sx, sy, dx, dy) = (s.x as int, s.y as int, d.x as int, d.y as int);
    if starts_on(o, s) {
        assert(ratio_le(0, 1, n2, d2));
        assert(c[0] is Some);
    } else if p.0 == o.lo_x() * d2 || p.0 == o.hi_x() * d2 {
        let e = if p.0 == o.lo_x() * d2 { o.lo_x() } else { o.hi_x() };
        lemma_contact_on_line(sx, dx, e, o.lo_x(), o.hi_x(), sy, dy, o.lo_y(), o.hi_y(), n2, d2);
        if dx != 0 {
            if e == o.lo_x() {
                assert(c[1] is Some && ratio_le(c[1].unwrap().0, c[1].unwrap().1, n2, d2));
            } else {
                assert(c[2] is Some && ratio_le(c[2].unwrap().0, c[2].unwrap().1, n2, d2));
            }
        } else if sy < o.lo_y() {
            assert(c[3] is Some && ratio_le(c[3].unwrap().0, c[3].unwrap().1, n2, d2));
        } else if sy > o.hi_y() {
            assert(c[4] is Some && ratio_le(c[4].unwrap().0, c[4].unwrap().1, n2, d2));
        } else {
            assert(starts_on(o, s));
        }
    } else {
        let e = if p.1 == o.lo_y() * d2 { o.lo_y() } else { o.hi_y() };
        lemma_contact_on_line(sy, dy, e, o.lo_y(), o.hi_y(), sx, dx, o.lo_x(), o.hi_x(), n2, d2);
        if dy != 0 {
            if e == o.lo_y() {
                assert(c[3] is Some && ratio_le(c[3].unwrap().0, c[3].unwrap().1, n2, d2));
            } else {
                assert(c[4] is Some && ratio_le(c[4].unwrap().0, c[4].unwrap().1, n2, d2));
            }
        } else if sx < o.lo_x() {
            assert(c[1] is Some && ratio_le(c[1].unwrap().0, c[1].unwrap().1, n2, d2));
        } else if sx > o.hi_x() {
            assert(c[2] is Some && ratio_le(c[2].unwrap().0, c[2].unwrap().1, n2, d2));
        } else {
            assert(starts_on(o, s));
        }
    }
}

/// The earliest candidate is exactly the ray's first contact with the
/// rectangle's boundary, and there is none when no candidate exists.
pub proof fn lemma_contact_time_exact(o: Occluder, s: Vec2, d: Vec2)
    requires
        o.wf(),
    ensures
        contact_time(o, s, d) is Some ==> first_contact(
            o,
            s,
            d,
            contact_time(o, s, d).unwrap().0,
            contact_time(o, s, d).unwrap().1,
        ),
        contact_time(o, s, d) is None ==> misses(o, s, d),
{
    let c = candidates(o, s, d);
    lemma_candidates_on_boundary(o, s, d);
    lemma_contact_time_min(o, s, d);
    let t = contact_time(o, s, d);
    if t is Some {
        let i0 = choose|i: int| 0 <= i < 5 && #[trigger] c[i] == t;
        assert(c[i0] is Some);
        assert forall|n2: int, d2: int| #[trigger] on_boundary(o, s, d, n2, d2) implies t.unwrap().0 * d2 <= n2 * t.unwrap().1 by {
            lemma_contact_after_candidate(o, s, d, n2, d2);
            let i = choose|i: int| 0 <= i < 5 && #[trigger] c[i] is Some && ratio_le(c[i].unwrap().0, c[i].unwrap().1, n2, d2);
            lemma_ratio_le_trans(t.unwrap().0, t.unwrap().1, c[i].unwrap().0, c[i].unwrap().1, n2, d2);
        }
    } else {
        assert forall|n2: int, d2: int| !#[trigger] on_boundary(o, s, d, n2, d2) by {
            if on_boundary(o, s, d, n2, d2) {
                lemma_contact_after_candidate(o, s, d, n2, d2);
            }
        }
    }
}

/// An optional exact time, as integers.
pub open spec fn time_of(t: Option<(i128, i128)>) -> Option<(int, int)> {
    match t {
        Some((n, den)) => Some((n as int, den as int)),
        None => None,
    }
}

/// Times produced here have a small numerator and a positive denominator.
pub open spec fn small_time(t: Option<(i128, i128)>) -> bool {
    t is Some ==> 0 <= t.unwrap().0 <= 8 * COORD_LIMIT && 0 < t.unwrap().1 <= DIR_LIMIT
}

/// `|a * b| <= ab` when `|a| <= ma` and `|b| <= mb`, with `ma * mb <= ab`.
pub proof fn lemma_mul_bound(a: int, b: int, ma: int, mb: int)
    requires
        -ma <= a <= ma,
        -mb <= b <= mb,
    ensures
        -(ma * mb) <= a * b <= ma * mb,
{
    assert(-(ma * mb) <= a * b <= ma * mb) by (nonlinear_arith)
        requires
            -ma <= a <= ma,
            -mb <= b <= mb,
    ;
}

/// Executable `crossing`.
fn line_crossing(sa: i128, da: i128, e: i128, sb: i128, db: i128, lb: i128, hb: i128) -> (r: Option<(i128, i128)>)
    requires
        -4 * COORD_LIMIT <= sa <= 4 * COORD_LIMIT,
        -4 * COORD_LIMIT <= e <= 4 * COORD_LIMIT,
        -4 * COORD_LIMIT <= sb <= 4 * COORD_LIMIT,
        -4 * COORD_LIMIT <= lb <= 4 * COORD_LIMIT,
        -4 * COORD_LIMIT <= hb <= 4 * COORD_LIMIT,
        -DIR_LIMIT <= da <= DIR_LIMIT,
        -DIR_LIMIT <= db <= DIR_LIMIT,
    ensures
        time_of(r) == crossing(sa as int, da as int, e as int, sb as int, db as int, lb as int, hb as int),
        small_time(r),
{
    if da == 0 {
        return None;
    }
    let n: i128 = if da > 0 { e - sa } else { sa - e };
    let den: i128 = if da > 0 { da } else { -da };
    if n < 0 {
        return None;
    }
    proof {
        lemma_mul_bound(lb as int, den as int, 4 * COORD_LIMIT, DIR_LIMIT as int);
        lemma_mul_bound(hb as int, den as int, 4 * COORD_LIMIT, DIR_LIMIT as int);
        lemma_mul_bound(sb as int, den as int, 4 * COORD_LIMIT, DIR_LIMIT as int);
        lemma_mul_bound(db as int, n as int, DIR_LIMIT as int, 8 * COORD_LIMIT);
    }
    let b = sb * den + db * n;
    if lb * den <= b && b <= hb * den {
        Some((n, den))
    } else {
        None
    }
}

/// Executable `earlier` on small times.
fn earlier_of(x: Option<(i128, i128)>, y: Option<(i128, i128)>) -> (r: Option<(i128, i128)>)
    requires
        small_time(x),
        small_time(y),
    ensures
        time_of(r) == earlier(time_of(x), time_of(y)),
        small_time(r),
{
    match (x, y) {
        (Some(a), Some(b)) => {
            proof {
                lemma_mul_bound(a.0 as int, b.1 as int, 8 * COORD_LIMIT, DIR_LIMIT as int);
                lemma_mul_bound(b.0 as int, a.1 as int, 8 * COORD_LIMIT, DIR_LIMIT as int);
            }
            if b.0 * a.1 <= a.0 * b.1 && !(a.0 * b.1 <= b.0 * a.1) {
                Some(b)
            } else {
                Some(a)
            }
        },
        (Some(a), None) => Some(a),
        (None, _) => y,
    }
}

/// The first time at which the ray from `s` along `d` meets the boundary
/// of `o`, if it ever does.
pub fn ray_hit(o: &Occluder, s: &Vec2, d: &Vec2) -> (r: Option<(i128, i128)>)
    requires
        o.wf(),
        source_ok(*s),
        within(*d, DIR_LIMIT as int),
    ensures
        time_of(r) == contact_time(*o, *s, *d),
        small_time(r),
        r is Some ==> first_contact(*o, *s, *d, r.unwrap().0 as int, r.unwrap().1 as int),
        r is None ==> misses(*o, *s, *d),
{
    proof {
        lemma_contact_time_exact(*o, *s, *d);
    }
    let lo_x = o.center.x as i128 - o.rect.half_w as i128;
    let hi_x = o.center.x as i128 + o.rect.half_w as i128;
    let lo_y = o.center.y as i128 - o.rect.half_h as i128;
    let hi_y = o.center.y as i128 + o.rect.half_h as i128;
    let (sx, sy, dx, dy) = (s.x as i128, s.y as i128, d.x as i128, d.y as i128);
    let on = lo_x <= sx && sx <= hi_x && lo_y <= sy && sy <= hi_y && (sx == lo_x || sx == hi_x
        || sy == lo_y || sy == hi_y);
    let c0: Option<(i128, i128)> = if on { Some((0, 1)) } else { None };
    let c1 = line_crossing(sx, dx, lo_x, sy, dy, lo_y, hi_y);
    let c2 = line_crossing(sx, dx, hi_x, sy, dy, lo_y, hi_y);
    let c3 = line_crossing(sy, dy, lo_y, sx, dx, lo_x, hi_x);
    let c4 = line_crossing(sy, dy, hi_y, sx, dx, lo_x, hi_x);
    assert(time_of(c0) == candidates(*o, *s, *d)[0]);
    let e1 = earlier_of(c0, c1);
    let e2 = earlier_of(e1, c2);
    let e3 = earlier_of(e2, c3);
    earlier_of(e3, c4)
}

/// The earliest contact time over `occs`; among equal times the first
/// occluder's is kept.
pub open spec fn nearest_time(occs: Seq<Occluder>, s: Vec2, d: Vec2) -> Option<(int, int)>
    decreases occs.len(),
{
    if occs.len() == 0 {
        None
    } else {
        let b = nearest_time(occs.drop_last(), s, d);
        match contact_time(occs.last(), s, d) {
            Some(t) => match b {
                Some(bb) => if t.0 * bb.1 < bb.0 * t.1 {
                    Some(t)
                } else {
                    b
                },
                None => Some(t),
            },
            None => b,
        }
    }
}

/// `n / den` is when the ray first meets any of `occs`.
pub open spec fn nearest_contact(occs: Seq<Occluder>, s: Vec2, d: Vec2, n: int, den: int) -> bool {
    &&& exists|j: int| 0 <= j < occs.len() && on_boundary(#[trigger] occs[j], s, d, n, den)
    &&& forall|j: int, n2: int, d2: int|
        0 <= j < occs.len() && #[trigger] on_boundary(occs[j], s, d, n2, d2) ==> n * d2 <= n2 * den
}

/// The ray meets none of `occs`.
pub open spec fn misses_all(occs: Seq<Occluder>, s: Vec2, d: Vec2) -> bool {
    forall|j: int| 0 <= j < occs.len() ==> misses(#[trigger] occs[j], s, d)
}

pub open spec fn all_occluders_wf(occs: Seq<Occluder>) -> bool {
    forall|j: int| 0 <= j < occs.len() ==> (#[trigger] occs[j]).wf()
}

/// The first time at which the ray from `s` along `d` meets any of `occs`.
#[verifier::rlimit(40)]
pub fn nearest_hit(occs: &Vec<Occluder>, s: &Vec2, d: &Vec2) -> (r: Option<(i128, i128)>)
    requires
        all_occluders_wf(occs@),
        source_ok(*s),
        within(*d, DIR_LIMIT as int),
    ensures
        small_time(r),
        time_of(r) == nearest_time(occs@, *s, *d),
        r is Some ==> nearest_contact(occs@, *s, *d, r.unwrap().0 as int, r.unwrap().1 as int),
        r is None ==> misses_all(occs@, *s, *d),
{
    let mut best: Option<(i128, i128)> = None;
    let mut i: usize = 0;
    assert(occs@.take(0).len() == 0);
    while i < occs.len()
        invariant
            i <= occs@.len(),
            all_occluders_wf(occs@),
            source_ok(*s),
            within(*d, DIR_LIMIT as int),
            small_time(best),
            time_of(best) == nearest_time(occs@.take(i as int), *s, *d),
            best is Some ==> nearest_contact(occs@.take(i as int), *s, *d, best.unwrap().0 as int, best.unwrap().1 as int),
            best is None ==> misses_all(occs@.take(i as int), *s, *d),
        decreases occs@.len() - i,
    {
        let h = ray_hit(&occs[i], s, d);
        let ghost prefix = occs@.take(i as int);
        let ghost next = occs@.take(i + 1);
        assert(next =~= prefix.push(occs@[i as int]));
        assert(next.drop_last() =~= prefix);
        match h {
            Some(t) => {
                let take = match best {
                    Some(b) => {
                        proof {
                            lemma_mul_bound(t.0 as int, b.1 as int, 8 * COORD_LIMIT, DIR_LIMIT as int);
                            lemma_mul_bound(b.0 as int, t.1 as int, 8 * COORD_LIMIT, DIR_LIMIT as int);
                        }
                        t.0 * b.1 < b.0 * t.1
                    },
                    None => true,
                };
                if take {
                    proof {
                        let (tn, td) = (t.0 as int, t.1 as int);
                        assert(on_boundary(next[i as int], *s, *d, tn, td));
                        assert forall|j: int, n2: int, d2: int|
                            0 <= j < next.len() && #[trigger] on_boundary(next[j], *s, *d, n2, d2) implies tn * d2 <= n2 * td by {
                            if j < i {
                                assert(prefix[j] == next[j]);
                                let b = best.unwrap();
                                assert(b.0 * d2 <= n2 * b.1);
                                lemma_ratio_le_trans(tn, td, b.0 as int, b.1 as int, n2, d2);
                            }
                        }
                    }
                    best = Some(t);
                } else {
                    proof {
                        let b = best.unwrap();
                        let (bn, bd) = (b.0 as int, b.1 as int);
                        let j0 = choose|j: int| 0 <= j < prefix.len() && on_boundary(#[trigger] prefix[j], *s, *d, bn, bd);
                        assert(next[j0] == prefix[j0]);
                        assert forall|j: int, n2: int, d2: int|
                            0 <= j < next.len() && #[trigger] on_boundary(next[j], *s, *d, n2, d2) implies bn * d2 <= n2 * bd by {
                            if j < i {
                                assert(prefix[j] == next[j]);
                            } else {
                                assert(t.0 * d2 <= n2 * t.1);
                                lemma_ratio_le_trans(bn, bd, t.0 as int, t.1 as int, n2, d2);
                            }
                        }
                    }
                }
            },
            None => {
                proof {
                    if best is Some {
                        let b = best.unwrap();
                        let (bn, bd) = (b.0 as int, b.1 as int);
                        let j0 = choose|j: int| 0 <= j < prefix.len() && on_boundary(#[trigger] prefix[j], *s, *d, bn, bd);
                        assert(next[j0] == prefix[j0]);
                        assert forall|j: int, n2: int, d2: int|
                            0 <= j < next.len() && #[trigger] on_boundary(next[j], *s, *d, n2, d2) implies bn * d2 <= n2 * bd by {
                            if j < i {
                                assert(prefix[j] == next[j]);
                            } else {
                                assert(!on_boundary(occs@[i as int], *s, *d, n2, d2));
                            }
                        }
                    } else {
                        assert forall|j: int| 0 <= j < next.len() implies misses(#[trigger] next[j], *s, *d) by {
                            if j < i {
                                assert(prefix[j] == next[j]);
                            }
                        }
                    }
                }
            },
        }
        i += 1;
    }
    assert(occs@.take(occs@.len() as int) =~= occs@);
    best
}

} // verus!
