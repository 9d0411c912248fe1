//! Scene switching, keys and movement directions.
use vstd::prelude::*;
use crate::geometry::{Vec2, COORD_LIMIT};

verus! {

/// Holds the scene that the outer loop should switch to next, if any.
pub struct BaseSwitcher<S> {
    next_scene: Option<S>,
}

impl<S> BaseSwitcher<S> {
    /// The pending scene.
    pub closed spec fn pending(&self) -> Option<S> {
        self.next_scene
    }

    pub fn new(scene: Option<S>) -> (r: BaseSwitcher<S>)
        ensures
            r.pending() == scene,
    {
        BaseSwitcher { next_scene: scene }
    }

    /// Requests a switch to `scene` (or cancels one with `None`).
    pub fn set_next(&mut self, scene: Option<S>)
        ensures
            final(self).pending() == scene,
    {
        self.next_scene = scene;
    }

    /// Hands out the pending scene and clears it.
    pub fn get_next(&mut self) -> (r: Option<S>)
        ensures
            r == old(self).pending(),
            final(self).pending() is None,
    {
        self.next_scene.take()
    }
}

/// A key of the keyboard, as far as the scenes tell keys apart.
#[derive(Clone, Copy, Debug, PartialEq, Eq, Structural)]
pub enum Key {
    Up,
    Down,
    Left,
    Right,
    Space,
    Enter,
    Other,
}

/// A direction of movement on screen (y grows downward).
#[derive(Clone, Copy, Debug, PartialEq, Eq, Structural)]
pub enum Direction {
    Up,
    Down,
    Left,
    Right,
    Stay,
}

/// The unit vector of a direction.
pub open spec fn direction_vec(d: Direction) -> Vec2 {
    match d {
        Direction::Left => Vec2 { x: -1i64, y: 0 },
        Direction::Right => Vec2 { x: 1, y: 0 },
        Direction::Up => Vec2 { x: 0, y: -1i64 },
        Direction::Down => Vec2 { x: 0, y: 1 },
        Direction::Stay => Vec2 { x: 0, y: 0 },
    }
}

/// The direction an arrow key stands for; `Stay` for any other key.
pub open spec fn key_direction(k: Key) -> Direction {
    match k {
        Key::Up => Direction::Up,
        Key::Down => Direction::Down,
        Key::Left => Direction::Left,
        Key::Right => Direction::Right,
        _ => Direction::Stay,
    }
}

impl Direction {
    /// The direction's unit vector (zero for `Stay`).
    pub fn vector(&self) -> (r: Vec2)
        ensures
            r == direction_vec(*self),
    {
        match self {
            Direction::Left => Vec2 { x: -1, y: 0 },
            Direction::Right => Vec2 { x: 1, y: 0 },
            Direction::Up => Vec2 { x: 0, y: -1 },
            Direction::Down => Vec2 { x: 0, y: 1 },
            Direction::Stay => Vec2 { x: 0, y: 0 },
        }
    }

    /// The direction of an arrow key.
    pub fn from_key(key: Key) -> (r: Direction)
        ensures
            r == key_direction(key),
    {
        match key {
            Key::Up => Direction::Up,
            Key::Down => Direction::Down,
            Key::Left => Direction::Left,
            Key::Right => Direction::Right,
            _ => Direction::Stay,
        }
    }
}

impl Vec2 {
    /// Moves the point `units` along `direction`.
    pub fn translate_by_direction(&mut self, direction: Direction, units: i64)
        requires
            old(self).wf(),
            0 <= units <= COORD_LIMIT,
        ensures
            final(self).x == old(self).x + direction_vec(direction).x * units,
            final(self).y == old(self).y + direction_vec(direction).y * units,
    {
        let d = direction.vector();
        let dx: i64 = if d.x < 0 { -units } else if d.x > 0 { units } else { 0 };
        let dy: i64 = if d.y < 0 { -units } else if d.y > 0 { units } else { 0 };
        proof {
            let v = direction_vec(direction);
            assert(dx == v.x * units && dy == v.y * units) by (nonlinear_arith)
                requires
                    v.x == -1 || v.x == 0 || v.x == 1,
                    v.y == -1 || v.y == 0 || v.y == 1,
                    dx == (if v.x < 0 { -units } else if v.x > 0 { units as int } else { 0 }),
                    dy == (if v.y < 0 { -units } else if v.y > 0 { units as int } else { 0 }),
            ;
        }
        self.x = self.x + dx;
        self.y = self.y + dy;
    }
}

/// Which movement keys are held down.
#[derive(Clone, Copy, Debug, PartialEq, Eq, Default)]
pub struct HeldKeys {
    pub up: bool,
    pub down: bool,
    pub left: bool,
    pub right: bool,
}

/// `keys` after `k` is pressed (`down == true`) or released.
pub open spec fn with_key(keys: HeldKeys, k: Key, down: bool) -> HeldKeys {
    match k {
        Key::Up => HeldKeys { up: down, ..keys },
        Key::Down => HeldKeys { down: down, ..keys },
        Key::Left => HeldKeys { left: down, ..keys },
        Key::Right => HeldKeys { right: down, ..keys },
        _ => keys,
    }
}

impl HeldKeys {
    pub fn none() -> (r: HeldKeys)
        ensures
            !r.up && !r.down && !r.left && !r.right,
    {
        HeldKeys { up: false, down: false, left: false, right: false }
    }

    /// Records a press (`down`) or a release of `k`.
    pub fn register(&mut self, k: Key, down: bool)
        ensures
            *final(self) == with_key(*old(self), k, down),
    {
        match k {
            Key::Up => self.up = down,
            Key::Down => self.down = down,
            Key::Left => self.left = down,
            Key::Right => self.right = down,
            _ => {},
        }
    }

    /// Whether `k` is held.
    pub fn current_pressed(&self, k: Key) -> (r: bool)
        ensures
            r == match k {
                Key::Up => self.up,
                Key::Down => self.down,
                Key::Left => self.left,
                Key::Right => self.right,
                _ => false,
            },
    {
        match k {
            Key::Up => self.up,
            Key::Down => self.down,
            Key::Left => self.left,
            Key::Right => self.right,
            _ => false,
        }
    }
}

} // verus!
