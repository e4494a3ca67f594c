use std::cell::Cell as Counter;

use ruga::entity::ContinueOrStop;
use ruga::entity::EntityInformation;
use ruga::geometry::Cell;
use ruga::geometry::Point;
use ruga::geometry::Shape;
use ruga::ray::Angle;
use ruga::ray::Direction;
use ruga::ray::Leg;
use ruga::ray::RayCast;
use ruga::ray::RayHit;
use ruga::ray::ANGLE_ONE;
use ruga::raycast::sort_hits;
use ruga::world::PhysicWorld;

const EAST: Angle = Angle { cos: 16384, sin: 0 };
const WEST: Angle = Angle { cos: -16384, sin: 0 };
const NORTH: Angle = Angle { cos: 0, sin: 16384 };
const SOUTH: Angle = Angle { cos: 0, sin: -16384 };
const NORTH_EAST: Angle = Angle { cos: 11585, sin: 11585 };

fn body(entity: u64, x: i32, y: i32, shape: Shape) -> EntityInformation {
    EntityInformation { entity, pos: Point { x, y }, group: 1, mask: 1, shape }
}

fn ray(x: i32, y: i32, angle: Angle, length: u32) -> RayCast {
    RayCast { origin: Point { x, y }, angle, length, group: 1, mask: 1, not: vec![] }
}

fn leg(x: i32, y: i32, reach: i64) -> Leg {
    Leg { cell: Cell { x, y }, reach }
}

fn go_on(_: &EntityInformation, _: i64, _: i64) -> ContinueOrStop {
    ContinueOrStop::Continue
}

fn stop(_: &EntityInformation, _: i64, _: i64) -> ContinueOrStop {
    ContinueOrStop::Stop
}

fn ends(hits: &Vec<RayHit>) -> Vec<(u64, i64, i64)> {
    hits.iter().map(|h| (h.entity.entity, h.min, h.max)).collect()
}

#[test]
fn one_is_16384() {
    assert_eq!(ANGLE_ONE, 16384);
}

#[test]
fn direction_goes_by_the_nearest_axis() {
    assert_eq!(EAST.direction(), Direction::Right);
    assert_eq!(WEST.direction(), Direction::Left);
    assert_eq!(NORTH.direction(), Direction::Up);
    assert_eq!(SOUTH.direction(), Direction::Down);
    assert_eq!(Angle { cos: 14189, sin: 8192 }.direction(), Direction::Right);
    assert_eq!(Angle { cos: -14189, sin: -8192 }.direction(), Direction::Left);
    assert_eq!(Angle { cos: 8192, sin: -14189 }.direction(), Direction::Down);
}

#[test]
fn direction_between_two_axes_is_up_or_down() {
    assert_eq!(NORTH_EAST.direction(), Direction::Up);
    assert_eq!(Angle { cos: -11585, sin: 11585 }.direction(), Direction::Up);
    assert_eq!(Angle { cos: 11585, sin: -11585 }.direction(), Direction::Down);
    assert_eq!(Angle { cos: -11585, sin: -11585 }.direction(), Direction::Down);
    assert_eq!(Angle { cos: -11586, sin: 11585 }.direction(), Direction::Left);
    assert_eq!(Angle { cos: 0, sin: 0 }.direction(), Direction::Down);
    assert_eq!(Angle { cos: i16::MIN, sin: i16::MIN }.direction(), Direction::Down);
}

#[test]
fn line_through_a_disc() {
    let o = Point { x: 0, y: 0 };
    assert_eq!(Shape::Circle(10).raycast(Point { x: 1500, y: 0 }, o, EAST), Some((1490, 1510)));
    assert_eq!(Shape::Circle(1000).raycast(Point { x: 3000, y: 900 }, o, EAST), Some((2565, 3435)));
    assert_eq!(Shape::Circle(10).raycast(Point { x: 1500, y: 0 }, o, WEST), Some((-1510, -1490)));
    assert_eq!(Shape::Circle(300).raycast(Point { x: 400, y: 0 }, Point { x: 500, y: 0 }, EAST), Some((-400, 200)));
    assert_eq!(Shape::Circle(5).raycast(Point { x: 0, y: -70 }, o, SOUTH), Some((65, 75)));
}

#[test]
fn line_beside_a_disc() {
    let o = Point { x: 0, y: 0 };
    assert_eq!(Shape::Circle(10).raycast(Point { x: 1500, y: 11 }, o, EAST), None);
    assert_eq!(Shape::Circle(10).raycast(Point { x: 1500, y: 10 }, o, EAST), Some((1500, 1500)));
    assert_eq!(Shape::Circle(10).raycast(Point { x: 1500, y: -10 }, o, EAST), Some((1500, 1500)));
    assert_eq!(Shape::Circle(0).raycast(Point { x: 7, y: 0 }, o, EAST), Some((7, 7)));
}

#[test]
fn line_through_a_box() {
    let o = Point { x: 0, y: 0 };
    let wall = Shape::Rectangle(1536, 512);
    assert_eq!(wall.raycast(Point { x: 3584, y: 512 }, o, EAST), Some((2048, 5120)));
    assert_eq!(wall.raycast(Point { x: 3584, y: 512 }, Point { x: 3584, y: 512 }, WEST), Some((-1536, 1536)));
    assert_eq!(wall.raycast(Point { x: 3584, y: 512 }, Point { x: 3584, y: 512 }, SOUTH), Some((-512, 512)));
    let crate_box = Shape::Rectangle(100, 100);
    assert_eq!(crate_box.raycast(Point { x: 1000, y: 1000 }, o, NORTH_EAST), Some((1272, 1555)));
    assert_eq!(crate_box.raycast(Point { x: -1000, y: 0 }, o, EAST), Some((-1100, -900)));
    assert_eq!(crate_box.raycast(Point { x: -1000, y: 0 }, o, WEST), Some((900, 1100)));
}

#[test]
fn line_beside_a_box() {
    let o = Point { x: 0, y: 0 };
    let crate_box = Shape::Rectangle(100, 100);
    assert_eq!(crate_box.raycast(Point { x: 1000, y: 500 }, o, EAST), None);
    assert_eq!(crate_box.raycast(Point { x: 1000, y: 101 }, o, EAST), None);
    assert_eq!(crate_box.raycast(Point { x: 1000, y: 100 }, o, EAST), Some((900, 1100)));
    assert_eq!(crate_box.raycast(Point { x: 1000, y: -1000 }, o, NORTH_EAST), None);
}

#[test]
fn direction_that_points_nowhere_meets_a_box_around_the_origin_everywhere() {
    let still = Angle { cos: 0, sin: 0 };
    let o = Point { x: 0, y: 0 };
    assert_eq!(Shape::Rectangle(5, 5).raycast(o, o, still), Some((i64::MIN, i64::MAX)));
    assert_eq!(Shape::Rectangle(5, 5).raycast(Point { x: 6, y: 0 }, o, still), None);
    assert_eq!(Shape::Circle(5).raycast(o, o, still), Some((-5, 5)));
}

#[test]
fn path_along_a_grid_line() {
    let legs = ray(0, 0, EAST, 10240).path();
    let want: Vec<Leg> = (0..11).map(|k| leg(k, 0, if k < 10 { (k as i64 + 1) * 1024 } else { 10240 })).collect();
    assert_eq!(legs, want);
}

#[test]
fn path_westward_from_a_grid_corner() {
    let legs = ray(0, 0, WEST, 2048).path();
    assert_eq!(legs, vec![leg(0, 0, 0), leg(-1, 0, 1024), leg(-2, 0, 2048)]);
}

#[test]
fn path_northward() {
    let legs = ray(100, 100, NORTH, 3000).path();
    assert_eq!(legs, vec![leg(0, 0, 924), leg(0, 1, 1948), leg(0, 2, 2972), leg(0, 3, 3000)]);
}

#[test]
fn path_through_a_grid_corner_steps_both_ways_at_once() {
    let legs = ray(512, 512, NORTH_EAST, 2048).path();
    assert_eq!(legs, vec![leg(0, 0, 724), leg(1, 1, 2048)]);
}

#[test]
fn path_on_a_slant_takes_the_nearer_border_first() {
    let legs = ray(100, 100, Angle { cos: 14189, sin: 8192 }, 2000).path();
    assert_eq!(legs, vec![leg(0, 0, 1066), leg(1, 0, 1848), leg(1, 1, 2000)]);
}

#[test]
fn path_that_stays_in_one_cell() {
    assert_eq!(ray(100, 100, EAST, 50).path(), vec![leg(0, 0, 50)]);
    assert_eq!(ray(100, 100, Angle { cos: 0, sin: 0 }, 50).path(), vec![leg(0, 0, 50)]);
}

#[test]
fn path_of_a_ray_without_length_is_empty() {
    assert_eq!(ray(100, 100, EAST, 0).path(), Vec::<Leg>::new());
}

fn check_far_path(cast: RayCast, end: Cell) {
    let legs = cast.path();
    let last = legs[legs.len() - 1];
    assert_eq!(last.reach, cast.length as i64);
    assert_eq!(last.cell, end);
    for pair in legs.windows(2) {
        assert!(pair[0].reach <= pair[1].reach);
        assert!((pair[1].cell.x - pair[0].cell.x).abs() <= 1);
        assert!((pair[1].cell.y - pair[0].cell.y).abs() <= 1);
        assert!(pair[0].cell != pair[1].cell);
    }
}

#[test]
fn path_from_the_corner_of_the_plane_ends_in_the_cell_of_its_end() {
    let steep = Angle { cos: i16::MAX, sin: i16::MIN };
    check_far_path(ray(i32::MAX, i32::MIN, steep, 100000), Cell { x: 2097347, y: -2097348 });
}

#[test]
fn path_of_the_longest_ray_ends_in_the_cell_of_its_end() {
    let slow = Angle { cos: 1, sin: -1 };
    check_far_path(ray(i32::MAX, i32::MIN, slow, u32::MAX), Cell { x: 2097407, y: -2097408 });
}

#[test]
fn probe_reports_the_ends_and_drops_what_lies_outside_the_ray() {
    let r = ray(0, 0, EAST, 800);
    let inside = body(1, 500, 0, Shape::Circle(10));
    assert_eq!(r.probe(&inside), Some(RayHit { entity: inside, min: 490, max: 510 }));
    let across_the_end = body(2, 805, 0, Shape::Circle(10));
    assert_eq!(r.probe(&across_the_end), Some(RayHit { entity: across_the_end, min: 795, max: 815 }));
    let at_the_end = body(3, 810, 0, Shape::Circle(10));
    assert_eq!(r.probe(&at_the_end), Some(RayHit { entity: at_the_end, min: 800, max: 820 }));
    assert_eq!(r.probe(&body(4, 900, 0, Shape::Circle(10))), None);
    assert_eq!(r.probe(&body(5, -11, 0, Shape::Circle(10))), None);
    let at_the_origin = body(6, -10, 0, Shape::Circle(10));
    assert_eq!(r.probe(&at_the_origin), Some(RayHit { entity: at_the_origin, min: -20, max: 0 }));
    assert_eq!(r.probe(&body(7, 500, 11, Shape::Circle(10))), None);
}

#[test]
fn sort_hits_orders_by_near_end_and_keeps_ties_in_place() {
    let a = RayHit { entity: body(1, 0, 0, Shape::Circle(1)), min: 30, max: 31 };
    let b = RayHit { entity: body(2, 0, 0, Shape::Circle(1)), min: 10, max: 99 };
    let c = RayHit { entity: body(3, 0, 0, Shape::Circle(1)), min: 30, max: 0 };
    let d = RayHit { entity: body(4, 0, 0, Shape::Circle(1)), min: -5, max: 0 };
    let e = RayHit { entity: body(5, 0, 0, Shape::Circle(1)), min: 10, max: 11 };
    assert_eq!(sort_hits(&vec![a, b, c, d, e]), vec![d, b, e, a, c]);
    assert_eq!(sort_hits(&vec![]), Vec::<RayHit>::new());
    assert_eq!(sort_hits(&vec![c]), vec![c]);
}

#[test]
fn ray_at_a_wall_reports_the_wall_at_its_near_edge_and_stops_there() {
    let mut world = PhysicWorld::new();
    let wall = body(7, 3584, 512, Shape::Rectangle(1536, 512));
    let beyond = body(8, 8000, 0, Shape::Circle(100));
    world.insert_static(wall);
    world.insert_static(beyond);
    let trace = world.raycast(&ray(0, 0, EAST, 10240), &stop);
    assert_eq!(trace.hits, vec![RayHit { entity: wall, min: 2048, max: 5120 }]);
    assert_eq!(trace.cells, 3);
    assert!(trace.stopped);
}

#[test]
fn ray_that_is_not_stopped_reports_every_body_once() {
    let mut world = PhysicWorld::new();
    let wall = body(7, 3584, 512, Shape::Rectangle(1536, 512));
    let beyond = body(8, 8000, 0, Shape::Circle(100));
    world.insert_static(wall);
    world.insert_static(beyond);
    let trace = world.raycast(&ray(0, 0, EAST, 10240), &go_on);
    assert_eq!(ends(&trace.hits), vec![(7, 2048, 5120), (8, 7900, 8100)]);
    assert_eq!(trace.cells, 11);
    assert!(!trace.stopped);
}

#[test]
fn bodies_along_the_ray_are_reported_nearest_first() {
    let mut world = PhysicWorld::new();
    world.insert_dynamic(body(1, 3500, 0, Shape::Circle(10)));
    world.insert_dynamic(body(2, 1500, 0, Shape::Circle(10)));
    world.insert_static(body(3, 2500, 0, Shape::Circle(10)));
    let trace = world.raycast(&ray(0, 0, EAST, 5000), &go_on);
    assert_eq!(ends(&trace.hits), vec![(2, 1490, 1510), (3, 2490, 2510), (1, 3490, 3510)]);
    for pair in trace.hits.windows(2) {
        assert!(pair[0].min <= pair[1].min);
    }
    assert_eq!(trace.cells, 5);
}

#[test]
fn bodies_in_one_cell_are_reported_nearest_first() {
    let mut world = PhysicWorld::new();
    world.insert_dynamic(body(1, 1900, 0, Shape::Circle(10)));
    world.insert_dynamic(body(2, 1100, 0, Shape::Circle(10)));
    let trace = world.raycast(&ray(0, 0, EAST, 5000), &go_on);
    assert_eq!(ends(&trace.hits), vec![(2, 1090, 1110), (1, 1890, 1910)]);
}

#[test]
fn movable_bodies_of_a_cell_are_looked_at_before_its_inert_bodies() {
    let mut world = PhysicWorld::new();
    world.insert_static(body(2, 1500, 0, Shape::Circle(10)));
    world.insert_dynamic(body(1, 1500, 0, Shape::Circle(10)));
    let trace = world.raycast(&ray(0, 0, EAST, 5000), &go_on);
    assert_eq!(ends(&trace.hits), vec![(1, 1490, 1510), (2, 1490, 1510)]);
}

#[test]
fn a_body_found_early_waits_until_the_ray_has_reached_it() {
    let mut world = PhysicWorld::new();
    world.insert_static(body(1, 3000, 900, Shape::Circle(1000)));
    world.insert_dynamic(body(2, 2100, 0, Shape::Circle(10)));
    let calls = Counter::new(0usize);
    let count = |_: &EntityInformation, _: i64, _: i64| {
        calls.set(calls.get() + 1);
        ContinueOrStop::Continue
    };
    let trace = world.raycast(&ray(0, 0, EAST, 10240), &count);
    assert_eq!(ends(&trace.hits), vec![(2, 2090, 2110), (1, 2565, 3435)]);
    assert_eq!(calls.get(), 2);
    let first = world.raycast(&ray(0, 0, EAST, 10240), &stop);
    assert_eq!(ends(&first.hits), vec![(2, 2090, 2110)]);
    assert_eq!(first.cells, 3);
}

#[test]
fn stop_after_the_second_hit_ends_the_query_there() {
    let mut world = PhysicWorld::new();
    world.insert_dynamic(body(1, 3500, 0, Shape::Circle(10)));
    world.insert_dynamic(body(2, 1500, 0, Shape::Circle(10)));
    world.insert_dynamic(body(3, 2500, 0, Shape::Circle(10)));
    world.insert_dynamic(body(4, 2600, 0, Shape::Circle(10)));
    let calls = Counter::new(0usize);
    let second = |_: &EntityInformation, _: i64, _: i64| {
        calls.set(calls.get() + 1);
        if calls.get() == 2 {
            ContinueOrStop::Stop
        } else {
            ContinueOrStop::Continue
        }
    };
    let trace = world.raycast(&ray(0, 0, EAST, 5000), &second);
    assert_eq!(ends(&trace.hits), vec![(2, 1490, 1510), (3, 2490, 2510)]);
    assert_eq!(calls.get(), 2);
    assert_eq!(trace.cells, 3);
    assert!(trace.stopped);
}

#[test]
fn callback_is_given_the_body_and_both_ends() {
    let mut world = PhysicWorld::new();
    let target = body(5, 1500, 0, Shape::Circle(10));
    world.insert_dynamic(target);
    let seen = Counter::new((0u64, 0i64, 0i64));
    let note = |e: &EntityInformation, min: i64, max: i64| {
        assert_eq!(*e, target);
        seen.set((e.entity, min, max));
        ContinueOrStop::Continue
    };
    world.raycast(&ray(0, 0, EAST, 5000), &note);
    assert_eq!(seen.get(), (5, 1490, 1510));
}

#[test]
fn stop_at_the_first_wall_lets_the_ray_pass_through_other_bodies() {
    let mut world = PhysicWorld::new();
    let mut monster = body(1, 1500, 0, Shape::Circle(100));
    monster.group = 0b01;
    let mut wall = body(2, 3584, 512, Shape::Rectangle(512, 512));
    wall.group = 0b10;
    let mut far = body(3, 6000, 0, Shape::Circle(100));
    far.group = 0b01;
    world.insert_dynamic(monster);
    world.insert_static(wall);
    world.insert_dynamic(far);
    let mut shot = ray(0, 0, EAST, 10240);
    shot.mask = 0b11;
    let at_walls = |e: &EntityInformation, _: i64, _: i64| {
        if e.group == 0b10 {
            ContinueOrStop::Stop
        } else {
            ContinueOrStop::Continue
        }
    };
    let trace = world.raycast(&shot, &at_walls);
    assert_eq!(ends(&trace.hits), vec![(1, 1400, 1600), (2, 3072, 4096)]);
    assert!(trace.stopped);
    assert_eq!(trace.cells, 4);
}

#[test]
fn ray_without_length_reports_nothing() {
    let mut world = PhysicWorld::new();
    world.insert_dynamic(body(1, 500, 500, Shape::Circle(300)));
    let trace = world.raycast(&ray(500, 500, EAST, 0), &stop);
    assert!(trace.hits.is_empty());
    assert_eq!(trace.cells, 0);
    assert!(!trace.stopped);
}

#[test]
fn ray_reports_no_body_behind_its_origin_or_beyond_its_length() {
    let mut world = PhysicWorld::new();
    world.insert_dynamic(body(1, 100, 0, Shape::Circle(10)));
    world.insert_dynamic(body(2, 900, 0, Shape::Circle(10)));
    world.insert_dynamic(body(3, 600, 0, Shape::Circle(10)));
    let trace = world.raycast(&ray(500, 0, EAST, 300), &go_on);
    assert_eq!(ends(&trace.hits), vec![(3, 90, 110)]);
}

#[test]
fn ray_from_inside_a_body_reports_it_with_a_near_end_behind_the_origin() {
    let mut world = PhysicWorld::new();
    world.insert_dynamic(body(1, 400, 0, Shape::Circle(300)));
    let trace = world.raycast(&ray(500, 0, EAST, 1000), &go_on);
    assert_eq!(ends(&trace.hits), vec![(1, -400, 200)]);
}

#[test]
fn ray_reports_a_body_only_if_the_filter_passes_both_ways() {
    let mut world = PhysicWorld::new();
    let mut target = body(1, 1500, 0, Shape::Circle(10));
    target.group = 0b01;
    target.mask = 0b10;
    world.insert_dynamic(target);
    let mut shot = ray(0, 0, EAST, 5000);
    shot.group = 0b10;
    shot.mask = 0b01;
    assert_eq!(ends(&world.raycast(&shot, &go_on).hits), vec![(1, 1490, 1510)]);
    shot.group = 0b100;
    shot.mask = 0b01;
    assert!(world.raycast(&shot, &go_on).hits.is_empty());
    shot.group = 0b10;
    shot.mask = 0b100;
    assert!(world.raycast(&shot, &go_on).hits.is_empty());
}

#[test]
fn ray_never_reports_an_excluded_id() {
    let mut world = PhysicWorld::new();
    world.insert_dynamic(body(1, 100, 0, Shape::Circle(200)));
    world.insert_dynamic(body(2, 1500, 0, Shape::Circle(10)));
    let mut shot = ray(100, 0, EAST, 5000);
    shot.not = vec![1];
    assert_eq!(ends(&world.raycast(&shot, &go_on).hits), vec![(2, 1390, 1410)]);
    shot.not = vec![2, 1];
    assert!(world.raycast(&shot, &go_on).hits.is_empty());
}

#[test]
fn ray_on_a_slant_reports_distances_along_the_ray() {
    let mut world = PhysicWorld::new();
    world.insert_static(body(1, 1000, 1000, Shape::Rectangle(100, 100)));
    world.insert_static(body(2, 2000, 2000, Shape::Circle(100)));
    let trace = world.raycast(&ray(0, 0, NORTH_EAST, 4000), &go_on);
    assert_eq!(ends(&trace.hits), vec![(1, 1272, 1555), (2, 2728, 2928)]);
}

#[test]
fn a_body_found_after_the_ray_has_passed_its_near_end_is_reported_late() {
    let mut world = PhysicWorld::new();
    world.insert_dynamic(body(1, 1034, 719, Shape::Circle(10)));
    world.insert_dynamic(body(2, 1020, 730, Shape::Circle(10)));
    let grazing = ray(1012, 573, Angle { cos: 1253, sin: 16336 }, 1887);
    assert_eq!(grazing.path(), vec![leg(0, 0, 157), leg(1, 0, 452), leg(1, 1, 1479), leg(1, 2, 1887)]);
    let trace = world.raycast(&grazing, &go_on);
    assert_eq!(ends(&trace.hits), vec![(2, 148, 166), (1, 147, 147)]);
}
