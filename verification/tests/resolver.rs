use ruga::collision::Collision;
use ruga::entity::EntityInformation;
use ruga::geometry::Cell;
use ruga::geometry::Point;
use ruga::geometry::Shape;
use ruga::resolver::body_cast;
use ruga::resolver::Reaction;
use ruga::world::PhysicWorld;

fn body(entity: u64, x: i32, y: i32, shape: Shape) -> EntityInformation {
    EntityInformation { entity, pos: Point { x, y }, group: 1, mask: 1, shape }
}

#[test]
fn body_cast_asks_with_the_bodys_own_shape_and_leaves_the_body_out() {
    let mut asker = body(42, 10, -20, Shape::Rectangle(3, 4));
    asker.group = 6;
    asker.mask = 9;
    let cast = body_cast(&asker);
    assert_eq!(cast.pos, Point { x: 10, y: -20 });
    assert_eq!(cast.shape, Shape::Rectangle(3, 4));
    assert_eq!(cast.group, 6);
    assert_eq!(cast.mask, 9);
    assert_eq!(cast.not, vec![42]);
}

#[test]
fn a_pair_in_contact_resolves_both_ways_before_either_is_told() {
    let mut world = PhysicWorld::new();
    let a = body(1, 500, 500, Shape::Circle(100));
    let b = body(2, 650, 500, Shape::Circle(100));
    world.insert_dynamic(a);
    world.insert_dynamic(b);
    let steps = world.collide(&a);
    assert_eq!(
        steps,
        vec![
            Reaction::Resolve { body: 1, other: 2, collision: Collision { normal_x: 150, normal_y: 0, depth: 50 } },
            Reaction::Resolve { body: 2, other: 1, collision: Collision { normal_x: -150, normal_y: 0, depth: 50 } },
            Reaction::OnCollision { body: 1, other: 2 },
            Reaction::OnCollision { body: 2, other: 1 },
        ]
    );
}

#[test]
fn a_body_never_collides_with_itself() {
    let mut world = PhysicWorld::new();
    let a = body(1, 500, 500, Shape::Circle(100));
    world.insert_dynamic(a);
    assert!(world.collide(&a).is_empty());
}

#[test]
fn a_body_sharing_several_cells_is_paired_once() {
    let mut world = PhysicWorld::new();
    let a = body(1, 1024, 1024, Shape::Circle(600));
    let b = body(2, 1100, 1100, Shape::Circle(600));
    world.insert_dynamic(a);
    world.insert_static(b);
    assert_eq!(world.apply_on_shape(&body_cast(&a)).len(), 4);
    let steps = world.collide(&a);
    assert_eq!(
        steps,
        vec![
            Reaction::Resolve { body: 1, other: 2, collision: Collision { normal_x: 76, normal_y: 76, depth: 1093 } },
            Reaction::Resolve { body: 2, other: 1, collision: Collision { normal_x: -76, normal_y: -76, depth: 1093 } },
            Reaction::OnCollision { body: 1, other: 2 },
            Reaction::OnCollision { body: 2, other: 1 },
        ]
    );
}

#[test]
fn pairs_come_in_the_order_in_which_the_grid_reports_them() {
    let mut world = PhysicWorld::new();
    let a = body(1, 500, 500, Shape::Rectangle(100, 100));
    world.insert_dynamic(body(2, 650, 500, Shape::Rectangle(100, 100)));
    world.insert_static(body(3, 500, 380, Shape::Rectangle(100, 100)));
    world.insert_dynamic(body(4, 3000, 3000, Shape::Rectangle(100, 100)));
    let steps = world.collide(&a);
    assert_eq!(
        steps,
        vec![
            Reaction::Resolve { body: 1, other: 3, collision: Collision { normal_x: 0, normal_y: -1, depth: 80 } },
            Reaction::Resolve { body: 3, other: 1, collision: Collision { normal_x: 0, normal_y: 1, depth: 80 } },
            Reaction::OnCollision { body: 1, other: 3 },
            Reaction::OnCollision { body: 3, other: 1 },
            Reaction::Resolve { body: 1, other: 2, collision: Collision { normal_x: 1, normal_y: 0, depth: 50 } },
            Reaction::Resolve { body: 2, other: 1, collision: Collision { normal_x: -1, normal_y: 0, depth: 50 } },
            Reaction::OnCollision { body: 1, other: 2 },
            Reaction::OnCollision { body: 2, other: 1 },
        ]
    );
}

#[test]
fn bodies_that_the_masks_keep_apart_do_not_collide() {
    let mut world = PhysicWorld::new();
    let mut a = body(1, 500, 500, Shape::Circle(100));
    a.group = 0b01;
    a.mask = 0b01;
    let mut ghost = body(2, 520, 500, Shape::Circle(100));
    ghost.group = 0b10;
    ghost.mask = 0b11;
    world.insert_dynamic(ghost);
    assert!(world.collide(&a).is_empty());
    assert_eq!(world.collide(&ghost).len(), 0);
    world.insert_dynamic(a);
    assert!(world.collide(&ghost).is_empty());
}

#[test]
fn refresh_dynamic_records_the_movable_bodies_where_they_are_now() {
    let mut world = PhysicWorld::new();
    let wall = body(9, 512, 512, Shape::Rectangle(512, 512));
    world.insert_static(wall);
    world.insert_dynamic(body(1, 100, 100, Shape::Circle(50)));
    let moved = body(1, 1500, 100, Shape::Circle(50));
    let other = body(2, 1600, 100, Shape::Circle(50));
    world.refresh_dynamic(&vec![moved, other]);
    assert!(world.movable_in(Cell { x: 0, y: 0 }).map_or(true, |v| v.is_empty()));
    assert_eq!(world.movable_in(Cell { x: 1, y: 0 }), Some(&vec![moved, other]));
    assert_eq!(world.inert_in(Cell { x: 0, y: 0 }), Some(&vec![wall]));
}
