//! The play scene's controller: the objects of the level, the players that
//! own some of them, the camera, input, and the per-frame update and draw.
use std::collections::HashMap;
use vstd::prelude::*;
use crate::camera::{follow, pull, Follow};
use crate::geometry::{within, Rect, Vec2, COORD_LIMIT};
use crate::object::{all_wf, heading, step, to_screen, to_world, GameObject, Physics, MAX_SPEED};
use crate::raycast::{all_occluders_wf, Occluder};
use crate::scene::{with_key, Direction, HeldKeys, Key};
use crate::visibility::{fan_triangle, light_region, lit_hit, sorted_by_angle, LitRegion, MAX_SPREAD};

verus! {

broadcast use vstd::std_specs::hash::group_hash_axioms;

/// World units per screen pixel.
pub const SUBPIXELS: i64 = 1000;

/// Most objects a scene holds.
pub const MAX_OBJECTS: usize = 1_048_576;

/// Packed RGBA colours.
pub const RED: u32 = 0xFF00_00FF;
pub const GREEN: u32 = 0x00FF_00FF;
pub const BLUE: u32 = 0x0000_FFFF;
pub const WHITE: u32 = 0xFFFF_FFFF;
pub const BLACK: u32 = 0x0000_00FF;

/// Width and height of the level, in world units.
pub const WORLD_WIDTH: i64 = 1000 * SUBPIXELS;
pub const WORLD_HEIGHT: i64 = 1000 * SUBPIXELS;

/// Name and colour of the local player.
#[derive(Clone, Debug, PartialEq, Eq)]
pub struct PlayerConfig {
    pub name: String,
    pub color: u32,
}

/// A player, and the index of the object it controls.
#[derive(Debug, PartialEq, Eq)]
pub struct Player {
    pub name: String,
    pub obj_index: usize,
}

/// What the network should be told of a spawn.
#[derive(Clone, Debug, PartialEq, Eq)]
pub struct SpawnEvent {
    pub token: usize,
    pub name: String,
    pub pos: Vec2,
    pub color: u32,
}

/// Tunable parameters of the scene.
#[derive(Clone, Copy, Debug, PartialEq, Eq)]
pub struct PlayConfig {
    pub physics: Physics,
    pub follow: Follow,
    /// Speed given to the player by a held movement key.
    pub move_speed: i64,
    /// Where the local player appears.
    pub spawn_point: Vec2,
    /// Tangent denominator of the turn past silhouette corners.
    pub aux_spread: i64,
    /// World position of the floor's first tile, its size and the count per side.
    pub floor_origin: Vec2,
    pub tile_size: i64,
    pub tiles_per_side: i64,
    /// World centre of the darkening overlay and its half extents.
    pub shade_center: Vec2,
    pub shade_half: Vec2,
}

impl PlayConfig {
    pub open spec fn wf(self) -> bool {
        &&& self.physics.wf()
        &&& self.follow.wf()
        &&& 0 <= self.move_speed <= MAX_SPEED
        &&& self.spawn_point.wf()
        &&& 1 <= self.aux_spread <= MAX_SPREAD
        &&& self.floor_origin.wf()
        &&& 0 <= self.tile_size
        &&& 0 <= self.tiles_per_side <= 1024
        &&& self.tile_size * self.tiles_per_side <= COORD_LIMIT
        &&& self.shade_center.wf()
        &&& self.shade_half.wf()
    }

    /// The game's parameters: world units of 1/1000 pixel and ticks of one
    /// millisecond; friction 4/5 per frame; a 150 pixel dead zone around a
    /// 800x600 viewport's centre; speeds of 200 pixels per second.
    pub fn standard() -> (r: PlayConfig)
        ensures
            r.wf(),
            r == standard_config(),
    {
        PlayConfig {
            physics: Physics { friction_num: 4, friction_den: 5, rest_speed_sq: 0 },
            follow: Follow {
                center: Vec2 { x: 400 * SUBPIXELS, y: 300 * SUBPIXELS },
                dead_zone: 150 * SUBPIXELS,
                speed: 200,
            },
            move_speed: 200,
            spawn_point: Vec2 { x: 400 * SUBPIXELS, y: 300 * SUBPIXELS },
            aux_spread: 100,
            floor_origin: Vec2 { x: -100 * SUBPIXELS, y: -200 * SUBPIXELS },
            tile_size: 200 * SUBPIXELS,
            tiles_per_side: 5,
            shade_center: Vec2 { x: 400 * SUBPIXELS, y: 300 * SUBPIXELS },
            shade_half: Vec2 { x: WORLD_WIDTH / 2, y: WORLD_HEIGHT / 2 },
        }
    }
}

/// The parameters `PlayConfig::standard` gives.
pub open spec fn standard_config() -> PlayConfig {
    PlayConfig {
        physics: Physics { friction_num: 4, friction_den: 5, rest_speed_sq: 0 },
        follow: Follow { center: Vec2 { x: 400_000, y: 300_000 }, dead_zone: 150_000, speed: 200 },
        move_speed: 200,
        spawn_point: Vec2 { x: 400_000, y: 300_000 },
        aux_spread: 100,
        floor_origin: Vec2 { x: -100_000i64, y: -200_000i64 },
        tile_size: 200_000,
        tiles_per_side: 5,
        shade_center: Vec2 { x: 400_000, y: 300_000 },
        shade_half: Vec2 { x: 500_000, y: 500_000 },
    }
}

/// A static object of the level at rest, facing along +x, with a collider.
pub open spec fn fixture(x: i64, y: i64, color: u32, hw: i64, hh: i64, collides: bool) -> GameObject {
    GameObject {
        pos: Vec2 { x, y },
        facing: Vec2 { x: 1, y: 0 },
        color,
        velocity: Vec2 { x: 0, y: 0 },
        bound: Some(Rect { half_w: hw, half_h: hh }),
        collides,
    }
}

/// The level: a non-blocking floor the size of the world, then eight walls.
pub open spec fn level() -> Seq<GameObject> {
    seq![
        fixture(400_000, 300_000, WHITE, 500_000, 500_000, false),
        fixture(200_000, 300_000, WHITE, 100_000, 10_000, true),
        fixture(500_000, 100_000, RED, 10_000, 100_000, true),
        fixture(50_000, 40_000, GREEN, 100_000, 100_000, true),
        fixture(600_000, 600_000, BLUE, 100_000, 150_000, true),
        fixture(50_000, 500_000, BLUE, 50_000, 50_000, true),
        fixture(50_000, 650_000, WHITE, 50_000, 50_000, true),
        fixture(200_000, 500_000, RED, 50_000, 50_000, true),
        fixture(200_000, 650_000, GREEN, 50_000, 50_000, true),
    ]
}

/// The play scene.
pub struct Play {
    pub objects: Vec<GameObject>,
    pub camera: GameObject,
    pub players: HashMap<usize, Player>,
    /// The network token, once connected.
    pub token: Option<usize>,
    pub player_config: PlayerConfig,
    /// Cursor position, in screen space.
    pub cursor: Vec2,
    pub held: HeldKeys,
    pub config: PlayConfig,
}

/// The token of the local player: the network's, or 0 offline.
pub open spec fn local_token(token: Option<usize>) -> usize {
    match token {
        Some(t) => t,
        None => 0,
    }
}

/// The object a fresh player gets.
pub open spec fn player_object(pos: Vec2, color: u32) -> GameObject {
    GameObject {
        pos,
        facing: Vec2 { x: 1, y: 0 },
        color,
        velocity: Vec2 { x: 0, y: 0 },
        bound: None,
        collides: false,
    }
}

impl Play {
    pub open spec fn wf(&self) -> bool {
        &&& self.objects@.len() <= MAX_OBJECTS
        &&& all_wf(self.objects@)
        &&& self.camera.wf()
        &&& within(self.cursor, 2 * COORD_LIMIT)
        &&& self.config.wf()
        &&& forall|t: usize| #[trigger]
            self.players@.contains_key(t) ==> self.players@[t].obj_index < self.objects@.len()
    }

    /// Index of the local player's object, if it has spawned.
    pub open spec fn player_slot(&self) -> Option<usize> {
        let t = local_token(self.token);
        if self.players@.contains_key(t) {
            Some(self.players@[t].obj_index)
        } else {
            None
        }
    }

    /// A scene with the level's static geometry, offline, no player yet.
    pub fn new(player_config: PlayerConfig) -> (r: Play)
        ensures
            r.wf(),
            r.objects@ == level(),
            r.camera == (GameObject {
                pos: Vec2 { x: 0, y: 0 },
                facing: Vec2 { x: 1, y: 0 },
                color: BLUE,
                velocity: Vec2 { x: 0, y: 0 },
                bound: None,
                collides: false,
            }),
            r.cursor == (Vec2 { x: 0, y: 0 }),
            !r.held.up && !r.held.down && !r.held.left && !r.held.right,
            r.config == standard_config(),
            r.players@ == Map::<usize, Player>::empty(),
            r.token is None,
            r.player_config == player_config,
    {
        let s = SUBPIXELS;
        let objects = vec![
            GameObject::new(400 * s, 300 * s, WHITE, Some((WORLD_WIDTH / 2, WORLD_HEIGHT / 2)), false),
            GameObject::new(200 * s, 300 * s, WHITE, Some((100 * s, 10 * s)), true),
            GameObject::new(500 * s, 100 * s, RED, Some((10 * s, 100 * s)), true),
            GameObject::new(50 * s, 40 * s, GREEN, Some((100 * s, 100 * s)), true),
            GameObject::new(600 * s, 600 * s, BLUE, Some((100 * s, 150 * s)), true),
            GameObject::new(50 * s, 500 * s, BLUE, Some((50 * s, 50 * s)), true),
            GameObject::new(50 * s, 650 * s, WHITE, Some((50 * s, 50 * s)), true),
            GameObject::new(200 * s, 500 * s, RED, Some((50 * s, 50 * s)), true),
            GameObject::new(200 * s, 650 * s, GREEN, Some((50 * s, 50 * s)), true),
        ];
        let r = Play {
            objects,
            camera: GameObject::new(0, 0, BLUE, None, false),
            players: HashMap::new(),
            token: None,
            player_config,
            cursor: Vec2::zero(),
            held: HeldKeys::none(),
            config: PlayConfig::standard(),
        };
        assert(r.objects@ =~= level());
        r
    }

    /// Records the token that the server gave this client.
    pub fn set_token(&mut self, token: usize)
        requires
            old(self).wf(),
        ensures
            final(self).wf(),
            final(self).token == Some(token),
            final(self).objects == old(self).objects,
            final(self).players == old(self).players,
            final(self).camera == old(self).camera,
    {
        self.token = Some(token);
    }

    /// The local player's token.
    pub fn local_token(&self) -> (r: usize)
        ensures
            r == local_token(self.token),
    {
        match self.token {
            Some(t) => t,
            None => 0,
        }
    }

    /// Index of the object of the player with `token`, if there is one.
    pub fn object_index_of(&self, token: usize) -> (r: Option<usize>)
        requires
            self.wf(),
        ensures
            r == (if self.players@.contains_key(token) {
                Some(self.players@[token].obj_index)
            } else {
                None::<usize>
            }),
            r is Some ==> r.unwrap() < self.objects@.len(),
    {
        match self.players.get(&token) {
            Some(p) => Some(p.obj_index),
            None => None,
        }
    }

    /// Index of the local player's object, if it has spawned.
    pub fn player_index(&self) -> (r: Option<usize>)
        requires
            self.wf(),
        ensures
            r == self.player_slot(),
            r is Some ==> r.unwrap() < self.objects@.len(),
    {
        let t = self.local_token();
        self.object_index_of(t)
    }

    /// The local player's object, if it has spawned.
    pub fn player(&self) -> (r: Option<GameObject>)
        requires
            self.wf(),
        ensures
            r == (match self.player_slot() {
                Some(i) => Some(self.objects@[i as int]),
                None => None::<GameObject>,
            }),
    {
        match self.player_index() {
            Some(i) => Some(self.objects[i]),
            None => None,
        }
    }

    /// Adds a player with `token`, owning a new object at `pos`.
    pub fn spawn_player(&mut self, token: usize, pos: Vec2, name: String, color: u32)
        requires
            old(self).wf(),
            old(self).objects@.len() < MAX_OBJECTS,
            pos.wf(),
        ensures
            final(self).wf(),
            final(self).objects@ == old(self).objects@.push(player_object(pos, color)),
            final(self).players@ == old(self).players@.insert(
                token,
                Player { name, obj_index: old(self).objects@.len() as usize },
            ),
            final(self).camera == old(self).camera,
            final(self).token == old(self).token,
            final(self).cursor == old(self).cursor,
            final(self).held == old(self).held,
            final(self).config == old(self).config,
            final(self).player_config == old(self).player_config,
    {
        let idx = self.objects.len();
        self.objects.push(GameObject::new(pos.x, pos.y, color, None, false));
        self.players.insert(token, Player { name, obj_index: idx });
        proof {
            assert forall|i: int| 0 <= i < self.objects@.len() implies (#[trigger] self.objects@[i]).wf() by {
                if i < idx {
                    assert(self.objects@[i] == old(self).objects@[i]);
                }
            }
            assert forall|t: usize| #[trigger]
                self.players@.contains_key(t) implies self.players@[t].obj_index < self.objects@.len() by {
                if t != token {
                    assert(old(self).players@.contains_key(t));
                }
            }
        }
    }

    /// Spawns the local player at `pos` and says what the network should be
    /// told.
    pub fn spawn_self_player(&mut self, pos: Vec2) -> (r: SpawnEvent)
        requires
            old(self).wf(),
            old(self).objects@.len() < MAX_OBJECTS,
            pos.wf(),
        ensures
            final(self).wf(),
            r == (SpawnEvent {
                token: local_token(old(self).token),
                name: old(self).player_config.name,
                pos,
                color: old(self).player_config.color,
            }),
            final(self).objects@ == old(self).objects@.push(player_object(pos, old(self).player_config.color)),
            final(self).players@ == old(self).players@.insert(
                local_token(old(self).token),
                Player { name: old(self).player_config.name, obj_index: old(self).objects@.len() as usize },
            ),
            final(self).camera == old(self).camera,
            final(self).token == old(self).token,
            final(self).cursor == old(self).cursor,
            final(self).held == old(self).held,
            final(self).config == old(self).config,
            final(self).player_config == old(self).player_config,
    {
        let token = self.local_token();
        let name = self.player_config.name.clone();
        let color = self.player_config.color;
        self.spawn_player(token, pos, name.clone(), color);
        SpawnEvent { token, name, pos, color }
    }

    /// A spawn announced by the network: ignored when the scene is full.
    pub fn spawn_remote(&mut self, token: usize, pos: Vec2, name: String, color: u32)
        requires
            old(self).wf(),
            pos.wf(),
        ensures
            final(self).wf(),
            old(self).objects@.len() < MAX_OBJECTS ==> final(self).objects@ == old(self).objects@.push(
                player_object(pos, color),
            ) && final(self).players@ == old(self).players@.insert(
                token,
                Player { name, obj_index: old(self).objects@.len() as usize },
            ),
            old(self).objects@.len() >= MAX_OBJECTS ==> final(self).objects@ == old(self).objects@
                && final(self).players@ == old(self).players@,
            final(self).camera == old(self).camera,
            final(self).token == old(self).token,
    {
        if self.objects.len() < MAX_OBJECTS {
            self.spawn_player(token, pos, name, color);
        }
    }

    /// Moves the object of the player with `token` to `pos`; nothing happens
    /// for an unknown token.
    pub fn update_player_pos(&mut self, token: usize, pos: Vec2)
        requires
            old(self).wf(),
            pos.wf(),
        ensures
            final(self).wf(),
            final(self).objects@ == (if old(self).players@.contains_key(token) {
                let i = old(self).players@[token].obj_index as int;
                old(self).objects@.update(i, GameObject { pos, ..old(self).objects@[i] })
            } else {
                old(self).objects@
            }),
            final(self).players@ == old(self).players@,
            final(self).camera == old(self).camera,
            final(self).token == old(self).token,
            final(self).cursor == old(self).cursor,
            final(self).held == old(self).held,
            final(self).config == old(self).config,
    {
        match self.object_index_of(token) {
            Some(i) => {
                let mut o = self.objects[i];
                o.pos = pos;
                self.objects.set(i, o);
                proof {
                    assert forall|j: int| 0 <= j < self.objects@.len() implies (#[trigger] self.objects@[j]).wf() by {
                        if j != i {
                            assert(self.objects@[j] == old(self).objects@[j]);
                        }
                    }
                }
            },
            None => {},
        }
    }

    /// A key went down: it is recorded as held and, if it is the spawn key
    /// and the local player has not spawned, the player spawns at the spawn
    /// point; the spawn is returned for the network. Once the player exists,
    /// the spawn key changes nothing.
    pub fn key_press(&mut self, key: Key) -> (r: Option<SpawnEvent>)
        requires
            old(self).wf(),
        ensures
            final(self).wf(),
            final(self).held == with_key(old(self).held, key, true),
            final(self).camera == old(self).camera,
            final(self).token == old(self).token,
            final(self).cursor == old(self).cursor,
            final(self).config == old(self).config,
            final(self).player_config == old(self).player_config,
            ({
                let spawns = key == Key::Space && old(self).player_slot() is None && old(self).objects@.len()
                    < MAX_OBJECTS;
                let pos = old(self).config.spawn_point;
                let t = local_token(old(self).token);
                if spawns {
                    &&& r == Some(
                        SpawnEvent {
                            token: t,
                            name: old(self).player_config.name,
                            pos,
                            color: old(self).player_config.color,
                        },
                    )
                    &&& final(self).objects@ == old(self).objects@.push(
                        player_object(pos, old(self).player_config.color),
                    )
                    &&& final(self).players@ == old(self).players@.insert(
                        t,
                        Player {
                            name: old(self).player_config.name,
                            obj_index: old(self).objects@.len() as usize,
                        },
                    )
                } else {
                    &&& r is None
                    &&& final(self).objects@ == old(self).objects@
                    &&& final(self).players@ == old(self).players@
                }
            }),
    {
        self.held.register(key, true);
        if key == Key::Space && self.player_index().is_none() && self.objects.len() < MAX_OBJECTS {
            let pos = self.config.spawn_point;
            Some(self.spawn_self_player(pos))
        } else {
            None
        }
    }

    /// A key went up.
    pub fn key_release(&mut self, key: Key)
        requires
            old(self).wf(),
        ensures
            final(self).wf(),
            final(self).held == with_key(old(self).held, key, false),
            final(self).objects == old(self).objects,
            final(self).players == old(self).players,
            final(self).camera == old(self).camera,
            final(self).cursor == old(self).cursor,
    {
        self.held.register(key, false);
    }

    /// The cursor moved to screen position `cursor`, clamped to the screen
    /// range.
    pub fn mouse_move(&mut self, cursor: Vec2)
        requires
            old(self).wf(),
        ensures
            final(self).wf(),
            final(self).cursor == clamp_screen(cursor),
            final(self).objects == old(self).objects,
            final(self).players == old(self).players,
            final(self).camera == old(self).camera,
            final(self).held == old(self).held,
    {
        self.cursor = clamp_point(cursor);
    }
}

/// `c` clamped to `[-lim, lim]`.
pub open spec fn clamp(c: int, lim: int) -> int {
    if c < -lim {
        -lim
    } else if c > lim {
        lim
    } else {
        c
    }
}

/// A screen point clamped to the screen range.
pub open spec fn clamp_screen(p: Vec2) -> Vec2 {
    Vec2 {
        x: clamp(p.x as int, 2 * COORD_LIMIT) as i64,
        y: clamp(p.y as int, 2 * COORD_LIMIT) as i64,
    }
}

/// Executable `clamp_screen`.
pub fn clamp_point(p: Vec2) -> (r: Vec2)
    ensures
        r == clamp_screen(p),
        within(r, 2 * COORD_LIMIT),
{
    let lim = 2 * COORD_LIMIT;
    let x = if p.x < -lim { -lim } else if p.x > lim { lim } else { p.x };
    let y = if p.y < -lim { -lim } else if p.y > lim { lim } else { p.y };
    Vec2 { x, y }
}

/// Every object moved one frame against the objects as they stood at the
/// frame's start.
pub open spec fn stepped_all(objs: Seq<GameObject>, dt: int, ph: Physics) -> Seq<GameObject> {
    Seq::new(objs.len(), |i: int| step(objs[i], dt, objs, ph))
}

/// `o` after the held movement keys are applied in the order up, down,
/// left, right. Each held key replaces the velocity, so the last one held
/// in that order decides it.
pub open spec fn steered(o: GameObject, held: HeldKeys, speed: int) -> GameObject {
    let o1 = if held.up {
        GameObject { velocity: heading(Vec2 { x: 0, y: -1i64 }, speed), ..o }
    } else {
        o
    };
    let o2 = if held.down {
        GameObject { velocity: heading(Vec2 { x: 0, y: 1 }, speed), ..o1 }
    } else {
        o1
    };
    let o3 = if held.left {
        GameObject { velocity: heading(Vec2 { x: -1i64, y: 0 }, speed), ..o2 }
    } else {
        o2
    };
    if held.right {
        GameObject { velocity: heading(Vec2 { x: 1, y: 0 }, speed), ..o3 }
    } else {
        o3
    }
}

/// Executable `steered`.
fn steer(o: GameObject, held: &HeldKeys, speed: i64) -> (r: GameObject)
    requires
        o.wf(),
        0 <= speed <= MAX_SPEED,
    ensures
        r == steered(o, *held, speed as int),
        r.wf(),
{
    let mut p = o;
    if held.current_pressed(Key::Up) {
        p.move_to(Direction::from_key(Key::Up).vector(), speed);
    }
    if held.current_pressed(Key::Down) {
        p.move_to(Direction::from_key(Key::Down).vector(), speed);
    }
    if held.current_pressed(Key::Left) {
        p.move_to(Direction::from_key(Key::Left).vector(), speed);
    }
    if held.current_pressed(Key::Right) {
        p.move_to(Direction::from_key(Key::Right).vector(), speed);
    }
    p
}

impl Play {
    /// One frame of `dt` ticks: every object moves against the objects as
    /// they stood; the camera moves unblocked; the held movement keys steer
    /// the local player; the camera is pulled toward the player's screen
    /// position (the cursor's, before the player spawns).
    #[verifier::rlimit(40)]
    pub fn update(&mut self, dt: i64)
        requires
            old(self).wf(),
        ensures
            final(self).wf(),
            ({
                let ph = old(self).config.physics;
                let moved = stepped_all(old(self).objects@, dt as int, ph);
                let cam = step(old(self).camera, dt as int, Seq::<GameObject>::empty(), ph);
                &&& final(self).objects@ == match old(self).player_slot() {
                    Some(i) => moved.update(
                        i as int,
                        steered(moved[i as int], old(self).held, old(self).config.move_speed as int),
                    ),
                    None => moved,
                }
                &&& final(self).camera == (GameObject {
                    velocity: heading(
                        pull(
                            match old(self).player_slot() {
                                Some(i) => to_screen(cam.pos, final(self).objects@[i as int].pos),
                                None => old(self).cursor,
                            },
                            old(self).config.follow.center,
                            old(self).config.follow.dead_zone as int,
                        ),
                        old(self).config.follow.speed as int,
                    ),
                    ..cam
                })
            }),
            final(self).players@ == old(self).players@,
            final(self).token == old(self).token,
            final(self).cursor == old(self).cursor,
            final(self).held == old(self).held,
            final(self).config == old(self).config,
            final(self).player_config == old(self).player_config,
    {
        let ph = self.config.physics;
        let n = self.objects.len();
        let mut snapshot: Vec<GameObject> = Vec::new();
        let mut i: usize = 0;
        while i < n
            invariant
                n == self.objects@.len(),
                i <= n,
                snapshot@ == self.objects@.take(i as int),
            decreases n - i,
        {
            snapshot.push(self.objects[i]);
            assert(self.objects@.take(i + 1) =~= self.objects@.take(i as int).push(self.objects@[i as int]));
            i += 1;
        }
        assert(snapshot@ =~= self.objects@);
        let ghost start = self.objects@;
        let mut i: usize = 0;
        while i < n
            invariant
                n == self.objects@.len(),
                n == start.len(),
                i <= n,
                snapshot@ == start,
                all_wf(start),
                ph.wf(),
                all_wf(self.objects@),
                forall|j: int| 0 <= j < i ==> #[trigger] self.objects@[j] == step(start[j], dt as int, start, ph),
                forall|j: int| i <= j < n ==> #[trigger] self.objects@[j] == start[j],
                self.players@ == old(self).players@,
                self.camera == old(self).camera,
                self.token == old(self).token,
                self.cursor == old(self).cursor,
                self.held == old(self).held,
                self.config == old(self).config,
                self.player_config == old(self).player_config,
            decreases n - i,
        {
            let mut o = self.objects[i];
            o.update_position(dt, &snapshot, &ph);
            let ghost before = self.objects@;
            self.objects.set(i, o);
            proof {
                assert forall|j: int| 0 <= j < n implies (#[trigger] self.objects@[j]).wf() by {
                    if j != i {
                        assert(self.objects@[j] == before[j]);
                    }
                }
            }
            i += 1;
        }
        assert(self.objects@ =~= stepped_all(start, dt as int, ph));
        let empty: Vec<GameObject> = Vec::new();
        self.camera.update_position(dt, &empty, &ph);
        assert(empty@ =~= Seq::<GameObject>::empty());
        match self.player_index() {
            Some(idx) => {
                let p = steer(self.objects[idx], &self.held, self.config.move_speed);
                let ghost before = self.objects@;
                self.objects.set(idx, p);
                proof {
                    assert forall|j: int| 0 <= j < n implies (#[trigger] self.objects@[j]).wf() by {
                        if j != idx {
                            assert(self.objects@[j] == before[j]);
                        }
                    }
                }
            },
            None => {},
        }
        let target = match self.player_index() {
            Some(idx) => self.camera.world_to_screen(self.objects[idx].pos),
            None => self.cursor,
        };
        let fcfg = self.config.follow;
        follow(&mut self.camera, &target, &fcfg);
    }
}

/// A collider outline to draw, in screen space.
#[derive(Clone, Copy, Debug, PartialEq, Eq)]
pub struct Outline {
    pub center: Vec2,
    pub rect: Rect,
    pub facing: Vec2,
    pub color: u32,
}

/// The player's sprite, in screen space.
#[derive(Clone, Copy, Debug, PartialEq, Eq)]
pub struct Sprite {
    pub center: Vec2,
    pub facing: Vec2,
}

/// Everything one frame draws, in drawing order: floor tiles, the
/// darkening overlay, collider outlines, the lit fan, the player's sprite.
#[derive(Debug)]
pub struct Frame {
    /// Top-left corners of the floor tiles, in screen space.
    pub floor_tiles: Vec<Vec2>,
    pub tile_size: i64,
    pub shade_center: Vec2,
    pub shade_half: Vec2,
    pub outlines: Vec<Outline>,
    /// Where the light comes from.
    pub source: Vec2,
    pub lit: LitRegion,
    pub sprite: Option<Sprite>,
}

/// The outlines of the objects that have a collider, seen from a camera at
/// `cam`.
pub open spec fn outlines_of(objs: Seq<GameObject>, cam: Vec2) -> Seq<Outline>
    decreases objs.len(),
{
    if objs.len() == 0 {
        Seq::empty()
    } else {
        let rest = outlines_of(objs.drop_last(), cam);
        let o = objs.last();
        match o.bound {
            Some(r) => rest.push(Outline { center: to_screen(cam, o.pos), rect: r, facing: o.facing, color: o.color }),
            None => rest,
        }
    }
}

/// The rectangles that cast shadows.
pub open spec fn occluders_of(outlines: Seq<Outline>) -> Seq<Occluder> {
    outlines.map_values(|o: Outline| Occluder { center: o.center, rect: o.rect })
}

/// An `n` by `n` grid of tiles of side `size` from `origin`, column by
/// column.
pub open spec fn tile_grid(origin: Vec2, size: int, n: int) -> Seq<Vec2> {
    Seq::new(
        (n * n) as nat,
        |k: int| Vec2 { x: (origin.x + size * (k / n)) as i64, y: (origin.y + size * (k % n)) as i64 },
    )
}

/// Executable `tile_grid`.
pub fn floor_tiles(origin: Vec2, size: i64, n: i64) -> (r: Vec<Vec2>)
    requires
        within(origin, 2 * COORD_LIMIT),
        0 <= size,
        0 <= n <= 1024,
        size * n <= COORD_LIMIT,
    ensures
        r@ == tile_grid(origin, size as int, n as int),
{
    let mut r: Vec<Vec2> = Vec::new();
    let mut i: i64 = 0;
    while i < n
        invariant
            0 <= i <= n,
            n <= 1024,
            0 <= size,
            size * n <= COORD_LIMIT,
            within(origin, 2 * COORD_LIMIT),
            r@.len() == i * n,
            forall|k: int| 0 <= k < i * n ==> #[trigger] r@[k] == tile_grid(origin, size as int, n as int)[k],
        decreases n - i,
    {
        let mut j: i64 = 0;
        while j < n
            invariant
                0 <= i < n,
                0 <= j <= n,
                n <= 1024,
                0 <= size,
                size * n <= COORD_LIMIT,
                within(origin, 2 * COORD_LIMIT),
                r@.len() == i * n + j,
                forall|k: int| 0 <= k < i * n + j ==> #[trigger] r@[k] == tile_grid(origin, size as int, n as int)[k],
            decreases n - j,
        {
            proof {
                assert(size * i <= size * n && size * j <= size * n && size * i >= 0 && size * j >= 0)
                    by (nonlinear_arith)
                    requires
                        0 <= i < n,
                        0 <= j < n,
                        0 <= size,
                ;
                let k = i * n + j;
                vstd::arithmetic::div_mod::lemma_fundamental_div_mod_converse(k, n as int, i as int, j as int);
                assert(k < n * n) by (nonlinear_arith)
                    requires
                        k == i * n + j,
                        0 <= i < n,
                        0 <= j < n,
                ;
            }
            r.push(Vec2 { x: origin.x + size * i, y: origin.y + size * j });
            j += 1;
        }
        proof {
            assert(i * n + n == (i + 1) * n) by (nonlinear_arith);
        }
        i += 1;
    }
    proof {
        assert(r@.len() == n * n) by (nonlinear_arith)
            requires
                r@.len() == i * n,
                i == n,
        ;
    }
    assert(r@ =~= tile_grid(origin, size as int, n as int));
    r
}

impl Play {
    /// Builds the outlines of the objects that have a collider, and the
    /// matching occluders.
    fn outlines(&self) -> (r: (Vec<Outline>, Vec<Occluder>))
        requires
            self.wf(),
        ensures
            r.0@ == outlines_of(self.objects@, self.camera.pos),
            r.1@ == occluders_of(r.0@),
            all_occluders_wf(r.1@),
            r.1@.len() <= MAX_OBJECTS,
    {
        let mut outs: Vec<Outline> = Vec::new();
        let mut occs: Vec<Occluder> = Vec::new();
        let n = self.objects.len();
        let mut i: usize = 0;
        while i < n
            invariant
                n == self.objects@.len(),
                self.wf(),
                i <= n,
                outs@ == outlines_of(self.objects@.take(i as int), self.camera.pos),
                occs@ == occluders_of(outs@),
                all_occluders_wf(occs@),
                occs@.len() <= i,
            decreases n - i,
        {
            let o = self.objects[i];
            assert(self.objects@.take(i + 1).drop_last() =~= self.objects@.take(i as int));
            assert(o.wf());
            match o.bound {
                Some(rect) => {
                    let center = self.camera.world_to_screen(o.pos);
                    let ghost before = occs@;
                    outs.push(Outline { center, rect, facing: o.facing, color: o.color });
                    occs.push(Occluder { center, rect });
                    assert(occs@ =~= occluders_of(outs@));
                    assert forall|j: int| 0 <= j < occs@.len() implies (#[trigger] occs@[j]).wf() by {
                        if j < before.len() {
                            assert(occs@[j] == before[j]);
                        }
                    }
                },
                None => {},
            }
            i += 1;
        }
        assert(self.objects@.take(n as int) =~= self.objects@);
        (outs, occs)
    }

    /// Draws one frame: turns the local player to face away from the
    /// cursor (the sign the scene has always used), then lays out the floor,
    /// the overlay, the outlines, the region lit from the player (or from the
    /// cursor before the player spawns), and the sprite.
    #[verifier::rlimit(40)]
    pub fn draw(&mut self) -> (r: Frame)
        requires
            old(self).wf(),
        ensures
            final(self).wf(),
            ({
                let cam = old(self).camera.pos;
                let cursor_world = to_world(cam, old(self).cursor);
                &&& final(self).objects@ == match old(self).player_slot() {
                    Some(i) => old(self).objects@.update(
                        i as int,
                        GameObject {
                            facing: Vec2 {
                                x: (old(self).objects@[i as int].pos.x - cursor_world.x) as i64,
                                y: (old(self).objects@[i as int].pos.y - cursor_world.y) as i64,
                            },
                            ..old(self).objects@[i as int]
                        },
                    ),
                    None => old(self).objects@,
                }
                &&& r.source == match old(self).player_slot() {
                    Some(i) => to_screen(cam, old(self).objects@[i as int].pos),
                    None => old(self).cursor,
                }
                &&& r.sprite == match old(self).player_slot() {
                    Some(i) => Some(
                        Sprite {
                            center: to_screen(cam, final(self).objects@[i as int].pos),
                            facing: final(self).objects@[i as int].facing,
                        },
                    ),
                    None => None::<Sprite>,
                }
                &&& r.floor_tiles@ == tile_grid(
                    to_screen(cam, old(self).config.floor_origin),
                    old(self).config.tile_size as int,
                    old(self).config.tiles_per_side as int,
                )
                &&& r.tile_size == old(self).config.tile_size
                &&& r.shade_center == to_screen(cam, old(self).config.shade_center)
                &&& r.shade_half == old(self).config.shade_half
                &&& r.outlines@ == outlines_of(final(self).objects@, cam)
            }),
            forall|x| #[trigger] r.lit.hits@.contains(x) <==> lit_hit(
                occluders_of(r.outlines@),
                r.source,
                old(self).config.aux_spread as int,
                x,
            ),
            sorted_by_angle(r.lit.hits@),
            r.lit.fan@.len() == r.lit.hits@.len(),
            forall|i: int| 0 <= i < r.lit.fan@.len() ==> #[trigger] r.lit.fan@[i] == fan_triangle(r.lit.hits@, r.source, i),
            final(self).players@ == old(self).players@,
            final(self).camera == old(self).camera,
            final(self).token == old(self).token,
            final(self).cursor == old(self).cursor,
            final(self).held == old(self).held,
            final(self).config == old(self).config,
            final(self).player_config == old(self).player_config,
    {
        let cursor_world = self.camera.screen_to_world(self.cursor);
        let slot = self.player_index();
        match slot {
            Some(idx) => {
                let mut p = self.objects[idx];
                p.look_at(cursor_world);
                let ghost before = self.objects@;
                self.objects.set(idx, p);
                proof {
                    assert forall|j: int| 0 <= j < self.objects@.len() implies (#[trigger] self.objects@[j]).wf() by {
                        if j != idx {
                            assert(self.objects@[j] == before[j]);
                        }
                    }
                }
            },
            None => {},
        }
        let source = match slot {
            Some(idx) => self.camera.world_to_screen(self.objects[idx].pos),
            None => self.cursor,
        };
        let (outlines, occs) = self.outlines();
        let lit = light_region(&occs, &source, self.config.aux_spread);
        let origin = self.camera.world_to_screen(self.config.floor_origin);
        let floor = floor_tiles(origin, self.config.tile_size, self.config.tiles_per_side);
        let shade_center = self.camera.world_to_screen(self.config.shade_center);
        let sprite = match slot {
            Some(idx) => Some(
                Sprite { center: self.camera.world_to_screen(self.objects[idx].pos), facing: self.objects[idx].facing },
            ),
            None => None,
        };
        Frame {
            floor_tiles: floor,
            tile_size: self.config.tile_size,
            shade_center,
            shade_half: self.config.shade_half,
            outlines,
            source,
            lit,
            sprite,
        }
    }
}

} // verus!
