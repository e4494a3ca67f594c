use ruga::collision::Collision;
use ruga::entity::admits;
use ruga::entity::listed;
use ruga::entity::EntityInformation;
use ruga::entity::ShapeCast;
use ruga::entity::ShapeHit;
use ruga::geometry::Cell;
use ruga::geometry::Point;
use ruga::geometry::Shape;
use ruga::world::cell_key;
use ruga::world::PhysicWorld;

fn body(entity: u64, x: i32, y: i32, shape: Shape) -> EntityInformation {
    EntityInformation { entity, pos: Point { x, y }, group: 1, mask: 1, shape }
}

fn cast(x: i32, y: i32, shape: Shape) -> ShapeCast {
    ShapeCast { pos: Point { x, y }, shape, group: 1, mask: 1, not: vec![] }
}

fn cell(x: i32, y: i32) -> Cell {
    Cell { x, y }
}

fn ids(hits: &Vec<ShapeHit>) -> Vec<u64> {
    hits.iter().map(|h| h.entity.entity).collect()
}

#[test]
fn cell_keys_differ_from_cell_to_cell() {
    assert_eq!(cell_key(cell(0, 0)), 0x8000_0000_8000_0000);
    assert_eq!(cell_key(cell(i32::MIN, i32::MIN)), 0);
    assert_eq!(cell_key(cell(i32::MAX, i32::MAX)), u64::MAX);
    assert_eq!(cell_key(cell(1, -1)), 0x8000_0001_7fff_ffff);
    assert_ne!(cell_key(cell(0, 1)), cell_key(cell(1, 0)));
}

#[test]
fn new_world_is_empty() {
    let world = PhysicWorld::new();
    assert!(world.inert_in(cell(0, 0)).is_none());
    assert!(world.movable_in(cell(0, 0)).is_none());
    assert!(world.apply_on_shape(&cast(0, 0, Shape::Circle(5000))).is_empty());
}

#[test]
fn insert_static_records_the_body_in_every_covered_cell() {
    let mut world = PhysicWorld::new();
    let wall = body(7, 3584, 512, Shape::Rectangle(1536, 512));
    world.insert_static(wall);
    for x in 2..5 {
        assert_eq!(world.inert_in(cell(x, 0)), Some(&vec![wall]));
        assert!(world.movable_in(cell(x, 0)).is_none());
    }
    assert!(world.inert_in(cell(1, 0)).is_none());
    assert!(world.inert_in(cell(5, 0)).is_none());
    assert!(world.inert_in(cell(2, 1)).is_none());
    assert!(world.inert_in(cell(2, -1)).is_none());
}

#[test]
fn insert_dynamic_appends_behind_what_is_there() {
    let mut world = PhysicWorld::new();
    let first = body(1, 100, 100, Shape::Circle(50));
    let second = body(2, 200, 200, Shape::Circle(50));
    let far = body(3, 5000, 5000, Shape::Circle(50));
    world.insert_dynamic(first);
    world.insert_dynamic(second);
    world.insert_dynamic(far);
    assert_eq!(world.movable_in(cell(0, 0)), Some(&vec![first, second]));
    assert_eq!(world.movable_in(cell(4, 4)), Some(&vec![far]));
    assert!(world.inert_in(cell(0, 0)).is_none());
}

#[test]
fn clear_dynamic_keeps_the_inert_bodies() {
    let mut world = PhysicWorld::new();
    let wall = body(1, 512, 512, Shape::Rectangle(512, 512));
    let runner = body(2, 512, 512, Shape::Circle(100));
    world.insert_static(wall);
    world.insert_dynamic(runner);
    world.clear_dynamic();
    assert_eq!(world.inert_in(cell(0, 0)), Some(&vec![wall]));
    assert!(world.movable_in(cell(0, 0)).map_or(true, |v| v.is_empty()));
    assert_eq!(ids(&world.apply_on_shape(&cast(512, 512, Shape::Circle(10)))), vec![1]);
}

#[test]
fn fill_replaces_what_was_recorded() {
    let mut world = PhysicWorld::new();
    world.insert_static(body(9, 100, 100, Shape::Circle(10)));
    world.insert_dynamic(body(8, 100, 100, Shape::Circle(10)));
    let a = body(1, 100, 100, Shape::Circle(50));
    let b = body(2, 1100, 100, Shape::Circle(50));
    let c = body(3, 1024, 100, Shape::Circle(50));
    let wall = body(4, 512, 512, Shape::Rectangle(512, 512));
    world.fill(&vec![a, b, c], &vec![wall]);
    assert_eq!(world.movable_in(cell(0, 0)), Some(&vec![a, c]));
    assert_eq!(world.movable_in(cell(1, 0)), Some(&vec![b, c]));
    assert_eq!(world.inert_in(cell(0, 0)), Some(&vec![wall]));
    assert!(world.inert_in(cell(1, 0)).is_none());
}

#[test]
fn overlapping_shapes_are_reported_with_their_contact() {
    let mut world = PhysicWorld::new();
    let rock = body(5, 1500, 0, Shape::Circle(1000));
    world.insert_static(rock);
    let hits = world.apply_on_shape(&cast(0, 0, Shape::Circle(1000)));
    assert!(!hits.is_empty());
    for hit in hits.iter() {
        assert_eq!(hit.entity, rock);
        assert_eq!(hit.collision, Collision { normal_x: 1500, normal_y: 0, depth: 500 });
    }
}

#[test]
fn body_sharing_four_cells_with_the_query_is_reported_four_times() {
    let mut world = PhysicWorld::new();
    let rock = body(5, 1100, 1100, Shape::Circle(600));
    world.insert_static(rock);
    let hits = world.apply_on_shape(&cast(1024, 1024, Shape::Circle(600)));
    let one = ShapeHit { entity: rock, collision: Collision { normal_x: 76, normal_y: 76, depth: 1093 } };
    assert_eq!(hits, vec![one, one, one, one]);
}

#[test]
fn inert_bodies_of_a_cell_come_before_its_movable_bodies() {
    let mut world = PhysicWorld::new();
    world.insert_dynamic(body(1, 500, 500, Shape::Circle(100)));
    world.insert_static(body(2, 520, 500, Shape::Circle(100)));
    world.insert_dynamic(body(3, 540, 500, Shape::Circle(100)));
    world.insert_static(body(4, 560, 500, Shape::Circle(100)));
    let hits = world.apply_on_shape(&cast(500, 500, Shape::Circle(100)));
    assert_eq!(ids(&hits), vec![2, 4, 1, 3]);
}

#[test]
fn bodies_in_a_shared_cell_that_do_not_overlap_are_not_reported() {
    let mut world = PhysicWorld::new();
    world.insert_static(body(1, 900, 900, Shape::Circle(50)));
    assert!(world.apply_on_shape(&cast(100, 100, Shape::Circle(50))).is_empty());
}

#[test]
fn touching_bodies_are_not_reported() {
    let mut world = PhysicWorld::new();
    world.insert_static(body(1, 700, 500, Shape::Circle(100)));
    assert!(world.apply_on_shape(&cast(500, 500, Shape::Circle(100))).is_empty());
    assert_eq!(ids(&world.apply_on_shape(&cast(501, 500, Shape::Circle(100)))), vec![1]);
}

#[test]
fn a_body_is_reported_only_if_the_filter_passes_both_ways() {
    let mut world = PhysicWorld::new();
    let mut target = body(1, 500, 500, Shape::Circle(100));
    target.group = 0b01;
    target.mask = 0b10;
    world.insert_static(target);
    let mut query = cast(500, 500, Shape::Circle(100));
    query.group = 0b10;
    query.mask = 0b01;
    assert_eq!(ids(&world.apply_on_shape(&query)), vec![1]);
    query.group = 0b100;
    query.mask = 0b01;
    assert!(world.apply_on_shape(&query).is_empty());
    query.group = 0b10;
    query.mask = 0b100;
    assert!(world.apply_on_shape(&query).is_empty());
    query.group = 0;
    query.mask = 0;
    assert!(world.apply_on_shape(&query).is_empty());
    query.group = 0b110;
    query.mask = 0b101;
    assert_eq!(ids(&world.apply_on_shape(&query)), vec![1]);
}

#[test]
fn the_excluded_id_is_never_reported() {
    let mut world = PhysicWorld::new();
    world.insert_dynamic(body(1, 500, 500, Shape::Circle(100)));
    world.insert_dynamic(body(2, 500, 500, Shape::Circle(100)));
    world.insert_static(body(3, 500, 500, Shape::Circle(100)));
    let mut query = cast(500, 500, Shape::Circle(100));
    query.not = vec![1];
    assert_eq!(ids(&world.apply_on_shape(&query)), vec![3, 2]);
    query.not = vec![3, 1, 2];
    assert!(world.apply_on_shape(&query).is_empty());
}

#[test]
fn query_shape_without_size_on_a_grid_line_finds_nothing() {
    let mut world = PhysicWorld::new();
    world.insert_static(body(1, 1024, 512, Shape::Circle(300)));
    assert!(world.apply_on_shape(&cast(1024, 512, Shape::Circle(0))).is_empty());
    assert_eq!(ids(&world.apply_on_shape(&cast(1023, 512, Shape::Circle(0)))), vec![1]);
}

#[test]
fn listed_finds_ids() {
    assert!(listed(&vec![4, 5, 6], 5));
    assert!(!listed(&vec![4, 5, 6], 7));
    assert!(!listed(&vec![], 0));
}

#[test]
fn admits_checks_ids_and_both_masks() {
    let mut target = body(1, 0, 0, Shape::Circle(1));
    target.group = 0b01;
    target.mask = 0b10;
    assert!(admits(&target, 0b10, 0b01, &vec![2]));
    assert!(!admits(&target, 0b10, 0b01, &vec![2, 1]));
    assert!(!admits(&target, 0b01, 0b01, &vec![]));
    assert!(!admits(&target, 0b10, 0b10, &vec![]));
}

#[test]
fn collect_appends_hits_in_the_order_of_the_bodies() {
    let query = cast(0, 0, Shape::Rectangle(100, 100));
    let near = body(1, 150, 0, Shape::Rectangle(100, 100));
    let far = body(2, 500, 0, Shape::Rectangle(100, 100));
    let under = body(3, 0, -120, Shape::Rectangle(100, 100));
    let kept = ShapeHit { entity: far, collision: Collision { normal_x: 0, normal_y: 0, depth: 1 } };
    let mut found = vec![kept];
    query.collect(&vec![near, far, under], &mut found);
    assert_eq!(
        found,
        vec![
            kept,
            ShapeHit { entity: near, collision: Collision { normal_x: 1, normal_y: 0, depth: 50 } },
            ShapeHit { entity: under, collision: Collision { normal_x: 0, normal_y: -1, depth: 80 } },
        ]
    );
}
