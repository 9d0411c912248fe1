use side_run::ecs::{accelerate, advance, decelerate};
use side_run::geometry::{Vec2, COORD_LIMIT};
use side_run::play::{Play, PlayerConfig, SpawnEvent, RED};
use side_run::scene::{BaseSwitcher, Direction, HeldKeys, Key};

fn play() -> Play {
    Play::new(PlayerConfig { name: "Fridge".to_string(), color: RED })
}

#[test]
fn spawn_key_spawns_local_player_once() {
    let mut p = play();
    assert_eq!(p.objects.len(), 9);
    assert_eq!(p.player_index(), None);
    let ev = p.key_press(Key::Space);
    assert_eq!(
        ev,
        Some(SpawnEvent { token: 0, name: "Fridge".to_string(), pos: Vec2::new(400_000, 300_000), color: RED })
    );
    assert_eq!(p.objects.len(), 10);
    assert_eq!(p.players.len(), 1);
    assert_eq!(p.player_index(), Some(9));
    let again = p.key_press(Key::Space);
    assert_eq!(again, None);
    assert_eq!(p.objects.len(), 10);
    assert_eq!(p.players.len(), 1);
    assert_eq!(p.players.get(&0).map(|pl| pl.obj_index), Some(9));
}

#[test]
fn other_keys_do_not_spawn() {
    let mut p = play();
    assert_eq!(p.key_press(Key::Enter), None);
    assert_eq!(p.key_press(Key::Up), None);
    assert_eq!(p.objects.len(), 9);
    assert!(p.held.up);
}

#[test]
fn held_key_steers_player_each_frame() {
    let mut p = play();
    p.key_press(Key::Space);
    p.key_press(Key::Right);
    p.update(16);
    assert_eq!(p.objects[9].velocity, Vec2::new(200, 0));
    assert_eq!(p.objects[9].pos, Vec2::new(400_000, 300_000));
    p.update(16);
    assert_eq!(p.objects[9].pos, Vec2::new(403_200, 300_000));
    p.key_release(Key::Right);
    p.update(16);
    assert_eq!(p.objects[9].pos, Vec2::new(406_400, 300_000));
    assert_eq!(p.objects[9].velocity, Vec2::new(160, 0));
}

#[test]
fn last_held_key_in_order_wins() {
    let mut p = play();
    p.key_press(Key::Space);
    p.key_press(Key::Up);
    p.key_press(Key::Right);
    p.update(16);
    assert_eq!(p.objects[9].velocity, Vec2::new(200, 0));
    p.key_release(Key::Right);
    p.key_press(Key::Left);
    p.update(16);
    assert_eq!(p.objects[9].velocity, Vec2::new(-200, 0));
}

#[test]
fn camera_stays_while_player_is_centred() {
    let mut p = play();
    p.key_press(Key::Space);
    p.update(16);
    assert_eq!(p.camera.velocity, Vec2::new(0, 0));
}

#[test]
fn camera_follows_cursor_before_spawn() {
    let mut p = play();
    p.mouse_move(Vec2::new(700_000, 300_000));
    p.update(16);
    assert_eq!(p.camera.velocity, Vec2::new(200, 0));
    p.update(16);
    assert_eq!(p.camera.pos, Vec2::new(3_200, 0));
}

#[test]
fn remote_players_move_by_token() {
    let mut p = play();
    p.spawn_remote(7, Vec2::new(10, 20), "Other".to_string(), 0x0000_FFFF);
    assert_eq!(p.object_index_of(7), Some(9));
    p.update_player_pos(7, Vec2::new(30, 40));
    assert_eq!(p.objects[9].pos, Vec2::new(30, 40));
    p.update_player_pos(8, Vec2::new(1, 1));
    assert_eq!(p.objects[9].pos, Vec2::new(30, 40));
    assert_eq!(p.player_index(), None);
}

#[test]
fn connected_player_uses_network_token() {
    let mut p = play();
    p.set_token(42);
    let ev = p.key_press(Key::Space).unwrap();
    assert_eq!(ev.token, 42);
    assert_eq!(p.object_index_of(42), Some(9));
    assert_eq!(p.object_index_of(0), None);
}

#[test]
fn frame_lays_out_floor_outlines_light_and_sprite() {
    let mut p = play();
    p.key_press(Key::Space);
    let f = p.draw();
    assert_eq!(f.source, Vec2::new(400_000, 300_000));
    assert_eq!(f.floor_tiles.len(), 25);
    assert_eq!(f.floor_tiles[0], Vec2::new(-100_000, -200_000));
    assert_eq!(f.floor_tiles[1], Vec2::new(-100_000, 0));
    assert_eq!(f.floor_tiles[5], Vec2::new(100_000, -200_000));
    assert_eq!(f.outlines.len(), 9);
    assert_eq!(f.shade_center, Vec2::new(400_000, 300_000));
    let sprite = f.sprite.unwrap();
    assert_eq!(sprite.center, Vec2::new(400_000, 300_000));
    assert_eq!(sprite.facing, Vec2::new(400_000, 300_000));
    assert_eq!(p.objects[9].facing, Vec2::new(400_000, 300_000));
    assert!(!f.lit.hits.is_empty());
    assert_eq!(f.lit.fan.len(), f.lit.hits.len());
}

#[test]
fn frame_lights_from_cursor_before_spawn() {
    let mut p = play();
    p.mouse_move(Vec2::new(250_000, 250_000));
    let f = p.draw();
    assert_eq!(f.source, Vec2::new(250_000, 250_000));
    assert!(f.sprite.is_none());
}

#[test]
fn cursor_is_clamped_to_screen_range() {
    let mut p = play();
    p.mouse_move(Vec2::new(i64::MAX, i64::MIN));
    assert_eq!(p.cursor, Vec2::new(2 * COORD_LIMIT, -2 * COORD_LIMIT));
}

#[test]
fn switcher_hands_out_pending_scene_once() {
    let mut s: BaseSwitcher<u32> = BaseSwitcher::new(None);
    assert_eq!(s.get_next(), None);
    s.set_next(Some(3));
    assert_eq!(s.get_next(), Some(3));
    assert_eq!(s.get_next(), None);
}

#[test]
fn directions_and_keys() {
    assert_eq!(Direction::from_key(Key::Left).vector(), Vec2::new(-1, 0));
    assert_eq!(Direction::from_key(Key::Down).vector(), Vec2::new(0, 1));
    assert_eq!(Direction::from_key(Key::Space), Direction::Stay);
    let mut v = Vec2::new(10, 10);
    v.translate_by_direction(Direction::Up, 5);
    assert_eq!(v, Vec2::new(10, 5));
    let mut h = HeldKeys::none();
    h.register(Key::Down, true);
    assert!(h.current_pressed(Key::Down));
    h.register(Key::Down, false);
    assert!(!h.current_pressed(Key::Down));
}

#[test]
fn entity_systems_rules() {
    assert_eq!(decelerate(Vec2::new(100, 0), 85, 100, 1), Vec2::new(85, 0));
    assert_eq!(decelerate(Vec2::new(1, 0), 85, 100, 1), Vec2::new(0, 0));
    let held = HeldKeys { up: true, down: false, left: false, right: true };
    assert_eq!(accelerate(Vec2::new(5, 5), &held, 20), Vec2::new(25, -15));
    assert_eq!(advance(Vec2::new(1, 2), Vec2::new(3, -4), 5), Vec2::new(16, -18));
    assert_eq!(advance(Vec2::new(COORD_LIMIT, 0), Vec2::new(1, 0), 5), Vec2::new(COORD_LIMIT, 0));
}
