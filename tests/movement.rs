use side_run::camera::{follow, follow_pull, Follow};
use side_run::geometry::{isqrt, Rect, Vec2, COORD_LIMIT};
use side_run::object::{GameObject, Physics};

fn physics() -> Physics {
    Physics { friction_num: 4, friction_den: 5, rest_speed_sq: 0 }
}

fn mover(x: i64, y: i64, vx: i64, vy: i64) -> GameObject {
    let mut o = GameObject::new(x, y, 0xFFFF_FFFF, None, false);
    o.velocity = Vec2::new(vx, vy);
    o
}

#[test]
fn straight_line_move_checks_only_the_candidate_point() {
    // The candidate (150, 100) lies outside [110, 130] x [90, 110]: only the
    // end point of a move is tested, so the move goes through.
    let wall = GameObject::new(120, 100, 0xFF00_00FF, Some((10, 10)), true);
    let mut p = mover(100, 100, 50, 0);
    p.update_position(1, &vec![wall], &physics());
    assert_eq!(p.pos, Vec2::new(150, 100));
    assert_eq!(p.velocity, Vec2::new(40, 0));
}

#[test]
fn blocked_move_keeps_position_and_decays_velocity() {
    let wall = GameObject::new(120, 100, 0xFF00_00FF, Some((10, 10)), true);
    let mut p = mover(100, 100, 20, 0);
    p.update_position(1, &vec![wall], &physics());
    assert_eq!(p.pos, Vec2::new(100, 100));
    assert_eq!(p.velocity, Vec2::new(16, 0));
}

#[test]
fn free_move_advances_and_decays() {
    let mut p = mover(100, 100, 50, -25);
    p.update_position(2, &vec![], &physics());
    assert_eq!(p.pos, Vec2::new(200, 50));
    assert_eq!(p.velocity, Vec2::new(40, -20));
}

#[test]
fn friction_brings_velocity_to_rest() {
    let mut p = mover(0, 0, 200, 0);
    let mut speeds = vec![];
    let mut frames = 0;
    while !p.velocity.is_zero() {
        p.update_position(1, &vec![], &physics());
        speeds.push(p.velocity.x);
        frames += 1;
        assert!(frames <= 200);
    }
    assert_eq!(&speeds[..4], &[160, 128, 102, 81]);
    assert_eq!(p.velocity, Vec2::new(0, 0));
}

#[test]
fn velocity_within_rest_band_is_zeroed_without_moving() {
    let mut p = mover(5, 5, 6, 8);
    let ph = Physics { friction_num: 4, friction_den: 5, rest_speed_sq: 100 };
    p.update_position(1, &vec![], &ph);
    assert_eq!(p.pos, Vec2::new(5, 5));
    assert_eq!(p.velocity, Vec2::new(0, 0));
}

#[test]
fn edge_of_collider_does_not_block() {
    let wall = GameObject::new(120, 100, 0, Some((10, 10)), true);
    let mut p = mover(100, 100, 10, 0);
    p.update_position(1, &vec![wall], &physics());
    assert_eq!(p.pos, Vec2::new(110, 100));
}

#[test]
fn non_solid_object_does_not_block() {
    let floor = GameObject::new(120, 100, 0, Some((10, 10)), false);
    let mut p = mover(100, 100, 20, 0);
    p.update_position(1, &vec![floor], &physics());
    assert_eq!(p.pos, Vec2::new(120, 100));
}

#[test]
fn leaving_the_world_is_refused() {
    let mut p = mover(COORD_LIMIT - 5, 0, 10, 0);
    p.update_position(1, &vec![], &physics());
    assert_eq!(p.pos, Vec2::new(COORD_LIMIT - 5, 0));
    assert_eq!(p.velocity, Vec2::new(8, 0));
}

#[test]
fn pushing_into_a_wall_never_enters_it() {
    let wall = GameObject::new(200, 0, 0, Some((50, 50)), true);
    let walls = vec![wall];
    let mut p = mover(0, 0, 0, 0);
    for _ in 0..100 {
        p.move_to(Vec2::new(1, 0), 37);
        p.update_position(1, &walls, &physics());
        assert!(!GameObject::collides_with_at_pos(&p.pos, &wall));
        assert!(p.pos.x <= 150);
    }
    assert!(p.pos.x > 100);
}

#[test]
fn move_to_normalises_direction() {
    let mut p = mover(0, 0, 0, 0);
    p.move_to(Vec2::new(3, 4), 10);
    assert_eq!(p.velocity, Vec2::new(6, 8));
    p.move_to(Vec2::new(1, 1), 200);
    assert_eq!(p.velocity, Vec2::new(141, 141));
    p.move_to(Vec2::new(0, -1), 200);
    assert_eq!(p.velocity, Vec2::new(0, -200));
    p.move_to(Vec2::new(0, 0), 200);
    assert_eq!(p.velocity, Vec2::new(0, 0));
    assert_eq!(p.pos, Vec2::new(0, 0));
}

#[test]
fn look_at_faces_away_from_target() {
    let mut p = mover(10, 10, 0, 0);
    let f = p.look_at(Vec2::new(13, 14));
    assert_eq!(f, Vec2::new(-3, -4));
    assert_eq!(p.facing, Vec2::new(-3, -4));
}

#[test]
fn world_screen_round_trip() {
    let cam = GameObject::new(5, 7, 0, None, false);
    let p = Vec2::new(100, -3);
    let s = cam.world_to_screen(p);
    assert_eq!(s, Vec2::new(95, -10));
    assert_eq!(cam.screen_to_world(s), p);
}

#[test]
fn integer_square_root() {
    assert_eq!(isqrt(0), 0);
    assert_eq!(isqrt(80_000), 282);
    assert_eq!(isqrt(1 << 100), 1 << 50);
}

#[test]
fn rect_contains_only_interior() {
    let r = Rect::new(10, 5);
    assert!(r.contains(&Vec2::new(9, 4)));
    assert!(!r.contains(&Vec2::new(10, 0)));
    assert!(!r.contains(&Vec2::new(0, -5)));
    let c = r.corners(&Vec2::new(100, 100));
    assert_eq!(c, vec![Vec2::new(90, 95), Vec2::new(110, 95), Vec2::new(110, 105), Vec2::new(90, 105)]);
}

fn follow_cfg() -> Follow {
    Follow { center: Vec2::new(400_000, 300_000), dead_zone: 150_000, speed: 200 }
}

#[test]
fn camera_pulled_when_target_leaves_dead_zone() {
    let mut cam = GameObject::new(0, 0, 0, None, false);
    follow(&mut cam, &Vec2::new(600_000, 300_000), &follow_cfg());
    assert_eq!(cam.velocity, Vec2::new(200, 0));
    follow(&mut cam, &Vec2::new(100_000, 100_000), &follow_cfg());
    assert_eq!(cam.velocity, Vec2::new(-166, -110));
}

#[test]
fn camera_rests_inside_dead_zone() {
    let mut cam = GameObject::new(0, 0, 0, None, false);
    cam.velocity = Vec2::new(120, 0);
    assert_eq!(follow_pull(&Vec2::new(500_000, 400_000), &Vec2::new(400_000, 300_000), 150_000), Vec2::new(0, 0));
    follow(&mut cam, &Vec2::new(500_000, 400_000), &follow_cfg());
    assert_eq!(cam.velocity, Vec2::new(0, 0));
}
