use ruga::collision::isqrt;
use ruga::collision::shape_collision;
use ruga::collision::Collision;
use ruga::geometry::Point;
use ruga::geometry::Shape;

fn at(x: i32, y: i32) -> Point {
    Point { x, y }
}

fn turned(c: Option<Collision>) -> Option<Collision> {
    c.map(|c| Collision { normal_x: -c.normal_x, normal_y: -c.normal_y, depth: c.depth })
}

#[test]
fn isqrt_rounds_down() {
    assert_eq!(isqrt(0), 0);
    assert_eq!(isqrt(1), 1);
    assert_eq!(isqrt(3), 1);
    assert_eq!(isqrt(4), 2);
    assert_eq!(isqrt(99), 9);
    assert_eq!(isqrt(100), 10);
    assert_eq!(isqrt(7200), 84);
    assert_eq!(isqrt(u128::MAX), u64::MAX);
}

#[test]
fn circles_one_and_a_half_radii_apart_overlap() {
    let r: u32 = 1000;
    let a = at(0, 0);
    let b = at(1500, 0);
    let forth = shape_collision(a, &Shape::Circle(r), b, &Shape::Circle(r));
    let back = shape_collision(b, &Shape::Circle(r), a, &Shape::Circle(r));
    assert_eq!(forth, Some(Collision { normal_x: 1500, normal_y: 0, depth: 500 }));
    assert_eq!(back, Some(Collision { normal_x: -1500, normal_y: 0, depth: 500 }));
}

#[test]
fn tangent_circles_do_not_overlap_either_way() {
    let r: u32 = 1000;
    let a = at(0, 0);
    let b = at(2000, 0);
    assert_eq!(shape_collision(a, &Shape::Circle(r), b, &Shape::Circle(r)), None);
    assert_eq!(shape_collision(b, &Shape::Circle(r), a, &Shape::Circle(r)), None);
    let c = at(1999, 0);
    assert!(shape_collision(a, &Shape::Circle(r), c, &Shape::Circle(r)).is_some());
    assert!(shape_collision(c, &Shape::Circle(r), a, &Shape::Circle(r)).is_some());
}

#[test]
fn circles_on_a_slant_round_the_depth_down_from_the_distance() {
    let hit = shape_collision(at(0, 0), &Shape::Circle(600), at(76, 76), &Shape::Circle(600));
    assert_eq!(hit, Some(Collision { normal_x: 76, normal_y: 76, depth: 1093 }));
}

#[test]
fn circles_with_the_same_centre_have_no_direction() {
    let hit = shape_collision(at(5, 5), &Shape::Circle(3), at(5, 5), &Shape::Circle(4));
    assert_eq!(hit, Some(Collision { normal_x: 0, normal_y: 0, depth: 7 }));
}

#[test]
fn rectangles_overlap_along_the_axis_of_least_overlap() {
    let a = Shape::Rectangle(100, 50);
    let b = Shape::Rectangle(100, 50);
    let forth = shape_collision(at(0, 0), &a, at(150, 20), &b);
    assert_eq!(forth, Some(Collision { normal_x: 1, normal_y: 0, depth: 50 }));
    let back = shape_collision(at(150, 20), &b, at(0, 0), &a);
    assert_eq!(back, Some(Collision { normal_x: -1, normal_y: 0, depth: 50 }));
    let below = shape_collision(at(0, 0), &a, at(10, -90), &b);
    assert_eq!(below, Some(Collision { normal_x: 0, normal_y: -1, depth: 10 }));
}

#[test]
fn rectangles_with_equal_overlaps_part_vertically() {
    let a = Shape::Rectangle(100, 50);
    let hit = shape_collision(at(0, 0), &a, at(150, 50), &a);
    assert_eq!(hit, Some(Collision { normal_x: 0, normal_y: 1, depth: 50 }));
}

#[test]
fn touching_rectangles_do_not_overlap_either_way() {
    let a = Shape::Rectangle(100, 50);
    assert_eq!(shape_collision(at(0, 0), &a, at(200, 0), &a), None);
    assert_eq!(shape_collision(at(200, 0), &a, at(0, 0), &a), None);
    assert_eq!(shape_collision(at(0, 0), &a, at(0, 100), &a), None);
    assert!(shape_collision(at(0, 0), &a, at(199, 99), &a).is_some());
}

#[test]
fn circle_beside_a_rectangle() {
    let circle = Shape::Circle(100);
    let rect = Shape::Rectangle(50, 50);
    let forth = shape_collision(at(0, 0), &circle, at(120, 0), &rect);
    assert_eq!(forth, Some(Collision { normal_x: 70, normal_y: 0, depth: 30 }));
    let back = shape_collision(at(120, 0), &rect, at(0, 0), &circle);
    assert_eq!(back, Some(Collision { normal_x: -70, normal_y: 0, depth: 30 }));
}

#[test]
fn circle_at_the_corner_of_a_rectangle() {
    let circle = Shape::Circle(100);
    let rect = Shape::Rectangle(50, 50);
    let hit = shape_collision(at(0, 0), &circle, at(110, 110), &rect);
    assert_eq!(hit, Some(Collision { normal_x: 60, normal_y: 60, depth: 16 }));
    assert_eq!(shape_collision(at(0, 0), &circle, at(121, 121), &rect), None);
}

#[test]
fn circle_touching_a_rectangle_does_not_overlap_either_way() {
    let circle = Shape::Circle(100);
    let rect = Shape::Rectangle(50, 50);
    assert_eq!(shape_collision(at(0, 0), &circle, at(150, 0), &rect), None);
    assert_eq!(shape_collision(at(150, 0), &rect, at(0, 0), &circle), None);
}

#[test]
fn circle_with_its_centre_inside_a_rectangle_counts_as_a_square() {
    let circle = Shape::Circle(10);
    let rect = Shape::Rectangle(50, 50);
    let hit = shape_collision(at(0, 0), &circle, at(20, 0), &rect);
    assert_eq!(hit, Some(Collision { normal_x: 1, normal_y: 0, depth: 40 }));
    let back = shape_collision(at(20, 0), &rect, at(0, 0), &circle);
    assert_eq!(back, Some(Collision { normal_x: -1, normal_y: 0, depth: 40 }));
}

#[test]
fn every_pair_is_symmetric_on_a_sweep_of_positions() {
    let shapes = [Shape::Circle(0), Shape::Circle(90), Shape::Rectangle(40, 70), Shape::Rectangle(0, 25)];
    let spots = [-200, -131, -90, -40, -1, 0, 1, 39, 40, 41, 89, 90, 130, 200];
    let mut seen: usize = 0;
    for sa in shapes.iter() {
        for sb in shapes.iter() {
            for x in spots.iter() {
                for y in spots.iter() {
                    let a = at(3, -7);
                    let b = at(3 + *x, -7 + *y);
                    let forth = shape_collision(a, sa, b, sb);
                    let back = shape_collision(b, sb, a, sa);
                    assert_eq!(back, turned(forth));
                    if let Some(c) = forth {
                        assert!(c.depth >= 1);
                        seen += 1;
                    }
                }
            }
        }
    }
    assert!(seen > 0);
}

#[test]
fn shapes_at_the_far_ends_of_the_plane_do_not_overflow() {
    let a = at(i32::MIN, i32::MIN);
    let b = at(i32::MAX, i32::MAX);
    let big = Shape::Circle(u32::MAX);
    let hit = shape_collision(a, &big, b, &big);
    assert_eq!(hit, Some(Collision { normal_x: 4294967295, normal_y: 4294967295, depth: 2515933592 }));
    assert_eq!(shape_collision(a, &Shape::Circle(1), b, &Shape::Rectangle(1, 1)), None);
}
