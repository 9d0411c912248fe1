use side_run::geometry::{Rect, Vec2};
use side_run::raycast::{nearest_hit, ray_hit, Occluder};
use side_run::visibility::{
    angle_less, auxiliary_ray, build_fan, cast_rays, light_region, sort_by_angle, Intersection, RayKind, Triangle,
};

fn occ(cx: i64, cy: i64, hw: i64, hh: i64) -> Occluder {
    Occluder { center: Vec2::new(cx, cy), rect: Rect::new(hw, hh) }
}

#[test]
fn ray_meets_near_face_from_outside() {
    let o = occ(0, 0, 10, 10);
    assert_eq!(ray_hit(&o, &Vec2::new(-20, 0), &Vec2::new(1, 0)), Some((10, 1)));
    assert_eq!(ray_hit(&o, &Vec2::new(-20, 0), &Vec2::new(2, 0)), Some((10, 2)));
}

#[test]
fn ray_from_inside_meets_exit_face() {
    let o = occ(0, 0, 10, 10);
    assert_eq!(ray_hit(&o, &Vec2::new(0, 0), &Vec2::new(1, 0)), Some((10, 1)));
}

#[test]
fn ray_that_passes_by_misses() {
    let o = occ(0, 0, 10, 10);
    assert_eq!(ray_hit(&o, &Vec2::new(-20, 0), &Vec2::new(0, 1)), None);
    assert_eq!(ray_hit(&o, &Vec2::new(-20, 0), &Vec2::new(-1, 0)), None);
}

#[test]
fn ray_aimed_at_corner_reports_the_corner() {
    let o = occ(0, 0, 10, 10);
    assert_eq!(ray_hit(&o, &Vec2::new(-20, -20), &Vec2::new(1, 1)), Some((10, 1)));
}

#[test]
fn ray_starting_on_boundary_hits_at_once() {
    let o = occ(0, 0, 10, 10);
    assert_eq!(ray_hit(&o, &Vec2::new(-10, 3), &Vec2::new(-1, 0)), Some((0, 1)));
}

#[test]
fn nearest_of_several_occluders() {
    let occs = vec![occ(50, 0, 10, 10), occ(0, 0, 10, 10)];
    assert_eq!(nearest_hit(&occs, &Vec2::new(-20, 0), &Vec2::new(1, 0)), Some((10, 1)));
    assert_eq!(nearest_hit(&vec![], &Vec2::new(-20, 0), &Vec2::new(1, 0)), None);
}

#[test]
fn angle_order_follows_atan2() {
    // atan2 order: (-1,-1) < (1,-1) < (1,0) < (1,1) < (-1,0)
    let seq = [Vec2::new(-1, -1), Vec2::new(1, -1), Vec2::new(1, 0), Vec2::new(1, 1), Vec2::new(-1, 0)];
    for i in 0..seq.len() {
        for j in 0..seq.len() {
            assert_eq!(angle_less(&seq[i], &seq[j]), i < j, "{} {}", i, j);
        }
    }
}

fn hit(dx: i64, dy: i64, kind: RayKind, px: i64, py: i64) -> Intersection {
    Intersection { dir: Vec2::new(dx, dy), kind, point: Vec2::new(px, py) }
}

#[test]
fn sorting_is_by_angle_and_stable() {
    let v = vec![
        hit(1, 1, RayKind::Primary, 1, 0),
        hit(1, -1, RayKind::Primary, 2, 0),
        hit(2, 2, RayKind::Clockwise, 3, 0),
        hit(-1, 0, RayKind::Primary, 4, 0),
    ];
    let s = sort_by_angle(v);
    let xs: Vec<i64> = s.iter().map(|h| h.point.x).collect();
    assert_eq!(xs, vec![2, 1, 3, 4]);
}

#[test]
fn fan_joins_neighbours_and_closes() {
    let src = Vec2::new(0, 0);
    let hits = vec![hit(1, -1, RayKind::Primary, 5, -5), hit(1, 0, RayKind::Primary, 5, 0), hit(0, 1, RayKind::Primary, 0, 5)];
    let fan = build_fan(&hits, src);
    assert_eq!(
        fan,
        vec![
            Triangle { a: Vec2::new(5, -5), b: Vec2::new(5, 0), c: src },
            Triangle { a: Vec2::new(5, 0), b: Vec2::new(0, 5), c: src },
            Triangle { a: Vec2::new(5, -5), b: Vec2::new(0, 5), c: src },
        ]
    );
    assert!(build_fan(&vec![], src).is_empty());
}

#[test]
fn auxiliary_ray_turns_past_silhouette_corner() {
    // Square [-10, 10]^2 seen from (-50, 0): its top-left corner turns
    // clockwise, its bottom-left corner counter-clockwise.
    let top = auxiliary_ray(&Vec2::new(-10, -10), &Vec2::new(-10, 10), &Vec2::new(10, -10), &Vec2::new(40, -10), 100);
    assert_eq!(top.map(|r| (r.dir, r.kind)), Some((Vec2::new(3990, -1040), RayKind::Clockwise)));
    let bottom = auxiliary_ray(&Vec2::new(-10, 10), &Vec2::new(10, 10), &Vec2::new(-10, -10), &Vec2::new(40, 10), 100);
    assert_eq!(bottom.map(|r| (r.dir, r.kind)), Some((Vec2::new(3990, 1040), RayKind::Counterclockwise)));
    // A corner whose edges both turn away from the ray gets none.
    let inner = auxiliary_ray(&Vec2::new(1000, -1000), &Vec2::new(-1000, -1000), &Vec2::new(1000, 1000), &Vec2::new(1050, -1000), 100);
    assert!(inner.is_none());
}

#[test]
fn corner_grazing_rays_outline_a_square_in_a_room() {
    let occs = vec![occ(0, 0, 1000, 1000), occ(0, 0, 10, 10)];
    let src = Vec2::new(-50, 0);
    let region = light_region(&occs, &src, 100);
    let points: Vec<(i64, i64)> = region.hits.iter().map(|h| (h.point.x, h.point.y)).collect();
    assert_eq!(
        points,
        vec![(-1000, -1000), (1000, -1000), (1000, -273), (-10, -10), (-10, 10), (1000, 273), (1000, 1000), (-1000, 1000)]
    );
    let kinds: Vec<RayKind> = region.hits.iter().map(|h| h.kind).collect();
    assert_eq!(kinds[2], RayKind::Clockwise);
    assert_eq!(kinds[5], RayKind::Counterclockwise);
    assert_eq!(kinds.iter().filter(|k| **k != RayKind::Primary).count(), 2);
    // Each silhouette corner of the square gives one auxiliary ray, which
    // clears the corner and lands on the far wall.
    assert_eq!(region.hits[2].dir, Vec2::new(3990, -1040));
    assert_eq!(region.hits[5].dir, Vec2::new(3990, 1040));
    assert_eq!(region.fan.len(), 8);
    assert_eq!(region.fan[7], Triangle { a: Vec2::new(-1000, -1000), b: Vec2::new(-1000, 1000), c: src });
}

#[test]
fn no_occluders_light_nothing() {
    let region = light_region(&vec![], &Vec2::new(3, 4), 100);
    assert!(region.hits.is_empty());
    assert!(region.fan.is_empty());
    assert!(cast_rays(&vec![], &Vec2::new(3, 4), 100).is_empty());
}

#[test]
fn only_turned_rays_are_auxiliary() {
    assert!(!RayKind::Primary.is_aux());
    assert!(RayKind::Clockwise.is_aux());
    assert!(RayKind::Counterclockwise.is_aux());
}
