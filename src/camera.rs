//! The camera's dead-zone follow: it is pulled toward a tracked target only
//! along the axes on which the target strays beyond the dead zone around
//! the viewport centre.
use vstd::prelude::*;
use crate::geometry::{within, Vec2, COORD_LIMIT};
use crate::object::{abs, heading, GameObject, MAX_SPEED};

verus! {

/// Parameters of the camera's follow.
#[derive(Clone, Copy, Debug, PartialEq, Eq)]
pub struct Follow {
    /// The viewport centre, in screen space.
    pub center: Vec2,
    /// Distance along an axis within which the target exerts no pull.
    pub dead_zone: i64,
    /// Speed the camera is given when pulled.
    pub speed: i64,
}

impl Follow {
    pub open spec fn wf(self) -> bool {
        self.center.wf() && 0 <= self.dead_zone && 0 <= self.speed <= MAX_SPEED
    }
}

/// The pull toward `target`: on each axis the target's offset from
/// `center`, if it exceeds the dead zone, else zero.
pub open spec fn pull(target: Vec2, center: Vec2, dead_zone: int) -> Vec2 {
    Vec2 {
        x: if abs(target.x - center.x) > dead_zone { (target.x - center.x) as i64 } else { 0 },
        y: if abs(target.y - center.y) > dead_zone { (target.y - center.y) as i64 } else { 0 },
    }
}

/// Executable `pull`.
pub fn follow_pull(target: &Vec2, center: &Vec2, dead_zone: i64) -> (r: Vec2)
    requires
        within(*target, 3 * COORD_LIMIT),
        center.wf(),
    ensures
        r == pull(*target, *center, dead_zone as int),
        within(r, 4 * COORD_LIMIT),
{
    let dx = target.x - center.x;
    let dy = target.y - center.y;
    let ax = if dx < 0 { -dx } else { dx };
    let ay = if dy < 0 { -dy } else { dy };
    Vec2 { x: if ax > dead_zone { dx } else { 0 }, y: if ay > dead_zone { dy } else { 0 } }
}

/// Sets the camera's velocity from the pull of a target at screen position
/// `target`: the pull normalised and scaled to the follow speed.
pub fn follow(camera: &mut GameObject, target: &Vec2, cfg: &Follow)
    requires
        old(camera).wf(),
        within(*target, 3 * COORD_LIMIT),
        cfg.wf(),
    ensures
        *final(camera) == (GameObject {
            velocity: heading(pull(*target, cfg.center, cfg.dead_zone as int), cfg.speed as int),
            ..*old(camera)
        }),
        final(camera).wf(),
{
    let p = follow_pull(target, &cfg.center, cfg.dead_zone);
    camera.move_to(p, cfg.speed);
}

/// A target within the dead zone's radius of the centre exerts no pull, so
/// the follow leaves the camera with zero velocity: it never speeds up.
pub proof fn lemma_dead_zone_no_pull(target: Vec2, center: Vec2, dead_zone: int, speed: int)
    requires
        dead_zone >= 0,
        (target.x - center.x) * (target.x - center.x) + (target.y - center.y) * (target.y - center.y)
            <= dead_zone * dead_zone,
    ensures
        pull(target, center, dead_zone) == (Vec2 { x: 0, y: 0 }),
        heading(pull(target, center, dead_zone), speed) == (Vec2 { x: 0, y: 0 }),
{
    let dx = target.x - center.x;
    let dy = target.y - center.y;
    assert(abs(dx) <= dead_zone) by (nonlinear_arith)
        requires
            dx * dx + dy * dy <= dead_zone * dead_zone,
            dead_zone >= 0,
            abs(dx) == (if dx < 0 { -dx } else { dx }),
    ;
    assert(abs(dy) <= dead_zone) by (nonlinear_arith)
        requires
            dx * dx + dy * dy <= dead_zone * dead_zone,
            dead_zone >= 0,
            abs(dy) == (if dy < 0 { -dy } else { dy }),
    ;
}

} // verus!
