use ruga::entity::EntityInformation;
use ruga::entity::ShapeCast;
use ruga::geometry::Point;
use ruga::geometry::Shape;
use ruga::ray::Angle;
use ruga::ray::RayCast;
use ruga::weapon::Gun;
use ruga::weapon::GunType;
use ruga::world::PhysicWorld;

const MONSTER: u32 = 0b01;
const WALL: u32 = 0b10;

fn body(entity: u64, x: i32, group: u32, shape: Shape) -> EntityInformation {
    EntityInformation { entity, pos: Point { x, y: 0 }, group, mask: 0b11, shape }
}

fn aim(gun: GunType, shooter: u64) -> RayCast {
    RayCast {
        origin: Point { x: 0, y: 0 },
        angle: Angle { cos: 16384, sin: 0 },
        length: gun.reach(),
        group: 0b11,
        mask: 0b11,
        not: vec![shooter],
    }
}

fn street() -> PhysicWorld {
    let mut world = PhysicWorld::new();
    world.insert_dynamic(body(1, 0, MONSTER, Shape::Circle(300)));
    world.insert_dynamic(body(2, 1500, MONSTER, Shape::Circle(100)));
    world.insert_dynamic(body(3, 2500, MONSTER, Shape::Circle(100)));
    world.insert_static(body(4, 4000, WALL, Shape::Rectangle(200, 2000)));
    world.insert_dynamic(body(5, 6000, MONSTER, Shape::Circle(100)));
    world
}

#[test]
fn a_new_gun_is_a_loaded_rifle() {
    let gun = Gun::new();
    assert_eq!(gun.gun_type, GunType::Rifle);
    assert_eq!(gun.next_type, GunType::Rifle);
    assert_eq!(gun.reloading, 0);
    assert!(!gun.shooting);
    assert_eq!(gun.ammo, 10000000);
    assert!(!gun.wants_armory());
}

#[test]
fn reloading_times_in_milliseconds() {
    let mut gun = Gun::new();
    assert_eq!(gun.time_to_reload(), 100);
    gun.gun_type = GunType::Shotgun;
    assert_eq!(gun.time_to_reload(), 800);
    gun.gun_type = GunType::Sniper;
    assert_eq!(gun.time_to_reload(), 1500);
    gun.gun_type = GunType::Unarmed;
    assert_eq!(gun.time_to_reload(), 0);
}

#[test]
fn reach_damage_and_bullets_of_each_gun() {
    assert_eq!(GunType::Rifle.reach(), 30 * 1024);
    assert_eq!(GunType::Shotgun.reach(), 30 * 1024);
    assert_eq!(GunType::Sniper.reach(), 70 * 1024);
    assert_eq!(GunType::Unarmed.reach(), 0);
    assert_eq!(GunType::Rifle.damage(), 10);
    assert_eq!(GunType::Shotgun.damage(), 10);
    assert_eq!(GunType::Sniper.damage(), 100);
    assert_eq!(GunType::Unarmed.damage(), 0);
    assert_eq!(GunType::Rifle.bullets(), 1);
    assert_eq!(GunType::Shotgun.bullets(), 4);
    assert_eq!(GunType::Sniper.bullets(), 1);
    assert_eq!(GunType::Unarmed.bullets(), 0);
}

#[test]
fn a_held_trigger_fires_once_per_reloading_time() {
    let mut gun = Gun::new();
    gun.shooting = true;
    assert!(gun.update(16, false));
    assert_eq!(gun.ammo, 9999999);
    assert_eq!(gun.reloading, 100);
    assert!(!gun.update(30, false));
    assert_eq!(gun.reloading, 70);
    assert!(!gun.update(80, false));
    assert_eq!(gun.reloading, -10);
    assert!(gun.update(16, false));
    assert_eq!(gun.reloading, 90);
    assert_eq!(gun.ammo, 9999998);
}

#[test]
fn a_released_trigger_lets_the_gun_reload_to_zero() {
    let mut gun = Gun::new();
    gun.reloading = 70;
    assert!(!gun.update(30, false));
    assert_eq!(gun.reloading, 40);
    assert!(!gun.update(100, false));
    assert_eq!(gun.reloading, 0);
    assert!(!gun.update(100, false));
    assert_eq!(gun.reloading, 0);
    assert_eq!(gun.ammo, 10000000);
}

#[test]
fn a_gun_without_ammunition_neither_fires_nor_reloads() {
    let mut gun = Gun::new();
    gun.ammo = 0;
    gun.shooting = true;
    gun.reloading = 50;
    assert!(!gun.update(16, false));
    assert_eq!(gun.reloading, 50);
    gun.reloading = 0;
    assert!(!gun.update(16, false));
    assert_eq!(gun.ammo, 0);
}

#[test]
fn the_last_round_can_be_fired() {
    let mut gun = Gun::new();
    gun.ammo = 1;
    gun.shooting = true;
    assert!(gun.update(16, false));
    assert_eq!(gun.ammo, 0);
    assert!(!gun.update(1000, false));
    assert_eq!(gun.reloading, 100);
}

#[test]
fn the_gun_changes_only_on_an_armory() {
    let mut gun = Gun::new();
    gun.next_type = GunType::Sniper;
    assert!(gun.wants_armory());
    gun.update(16, false);
    assert_eq!(gun.gun_type, GunType::Rifle);
    gun.shooting = true;
    assert!(gun.update(16, true));
    assert_eq!(gun.gun_type, GunType::Sniper);
    assert_eq!(gun.reloading, 1500);
    assert!(!gun.wants_armory());
}

#[test]
fn the_longest_tick_does_not_overflow() {
    let mut gun = Gun::new();
    gun.shooting = true;
    gun.reloading = 1;
    assert!(!gun.update(u32::MAX, false));
    assert_eq!(gun.reloading, -4294967294);
    assert!(gun.update(u32::MAX, false));
    assert_eq!(gun.reloading, -4294967194);
    gun.reloading = i64::MAX;
    assert!(!gun.update(u32::MAX, false));
    assert_eq!(gun.reloading, i64::MAX - 4294967295);
    gun.reloading = i64::MIN;
    assert!(gun.update(0, false));
    assert_eq!(gun.reloading, i64::MIN + 100);
}

#[test]
fn a_rifle_bullet_ends_at_the_first_body() {
    let world = street();
    let shot = world.shoot(GunType::Rifle, &aim(GunType::Rifle, 1), WALL);
    assert_eq!(shot.damaged, vec![2]);
    assert_eq!(shot.length, 1400);
}

#[test]
fn a_shotgun_pellet_ends_at_the_first_body() {
    let world = street();
    let shot = world.shoot(GunType::Shotgun, &aim(GunType::Shotgun, 1), WALL);
    assert_eq!(shot.damaged, vec![2]);
    assert_eq!(shot.length, 1400);
}

#[test]
fn a_sniper_bullet_goes_through_bodies_and_ends_at_the_first_wall() {
    let world = street();
    let shot = world.shoot(GunType::Sniper, &aim(GunType::Sniper, 1), WALL);
    assert_eq!(shot.damaged, vec![2, 3]);
    assert_eq!(shot.length, 3800);
}

#[test]
fn a_sniper_bullet_that_meets_no_wall_flies_its_whole_length() {
    let mut world = PhysicWorld::new();
    world.insert_dynamic(body(2, 1500, MONSTER, Shape::Circle(100)));
    world.insert_dynamic(body(3, 2500, MONSTER, Shape::Circle(100)));
    let shot = world.shoot(GunType::Sniper, &aim(GunType::Sniper, 1), WALL);
    assert_eq!(shot.damaged, vec![2, 3]);
    assert_eq!(shot.length, 71680);
}

#[test]
fn a_rifle_bullet_damages_a_wall_that_it_hits_first() {
    let mut world = PhysicWorld::new();
    world.insert_static(body(4, 4000, WALL, Shape::Rectangle(200, 2000)));
    world.insert_dynamic(body(5, 6000, MONSTER, Shape::Circle(100)));
    let shot = world.shoot(GunType::Rifle, &aim(GunType::Rifle, 1), WALL);
    assert_eq!(shot.damaged, vec![4]);
    assert_eq!(shot.length, 3800);
}

#[test]
fn a_bullet_that_meets_nothing_flies_its_whole_length() {
    let world = PhysicWorld::new();
    let shot = world.shoot(GunType::Rifle, &aim(GunType::Rifle, 1), WALL);
    assert!(shot.damaged.is_empty());
    assert_eq!(shot.length, 30720);
}

#[test]
fn the_one_who_shoots_is_hit_unless_left_out() {
    let world = street();
    let shot = world.shoot(GunType::Rifle, &aim(GunType::Rifle, 99), WALL);
    assert_eq!(shot.damaged, vec![1]);
    assert_eq!(shot.length, -300);
}

#[test]
fn without_a_gun_there_is_no_bullet() {
    let world = street();
    let mut ray = aim(GunType::Rifle, 99);
    ray.length = 50000;
    let shot = world.shoot(GunType::Unarmed, &ray, WALL);
    assert!(shot.damaged.is_empty());
    assert_eq!(shot.length, 0);
}

#[test]
fn touches_says_whether_the_query_hits_anything() {
    let world = street();
    let mut cast = ShapeCast { pos: Point { x: 3700, y: 0 }, shape: Shape::Circle(100), group: 0b11, mask: WALL, not: vec![] };
    assert!(!world.touches(&cast));
    cast.pos.x = 3701;
    assert!(world.touches(&cast));
    cast.mask = MONSTER;
    assert!(!world.touches(&cast));
}
