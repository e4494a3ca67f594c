//! Guns: when a gun fires, and what a shot along a ray hits.
//!
//! A rifle bullet and each pellet of a shotgun end at the first body on
//! their way. A sniper bullet goes through bodies and ends at the first wall.
//! Time is counted in milliseconds.

use vstd::prelude::*;
use crate::entity::ContinueOrStop;
use crate::entity::EntityInformation;
use crate::ray::RayCast;
use crate::ray::RayHit;
use crate::world::PhysicWorld;

verus! {

/// The guns a character can carry.
#[derive(Clone, Copy, PartialEq, Eq, Structural, Debug)]
pub enum GunType {
    Unarmed,
    Rifle,
    Shotgun,
    Sniper,
}

pub const RIFLE_RELOADING_TIME: u32 = 100;

pub const SHOTGUN_RELOADING_TIME: u32 = 800;

pub const SNIPER_RELOADING_TIME: u32 = 1500;

/// Reach of a rifle bullet, in steps: 30 cells.
pub const RIFLE_LENGTH: u32 = 30720;

/// Reach of a shotgun pellet, in steps: 30 cells.
pub const SHOTGUN_LENGTH: u32 = 30720;

/// Reach of a sniper bullet, in steps: 70 cells.
pub const SNIPER_LENGTH: u32 = 71680;

pub const RIFLE_DAMAGE: u32 = 10;

pub const SHOTGUN_DAMAGE: u32 = 10;

pub const SNIPER_DAMAGE: u32 = 100;

/// Number of pellets in one shot of a shotgun.
pub const SHOTGUN_SHOOT_NUMBER: u32 = 4;

impl GunType {
    /// Time between two shots.
    pub open spec fn reloading_time(self) -> int {
        match self {
            GunType::Sniper => SNIPER_RELOADING_TIME as int,
            GunType::Shotgun => SHOTGUN_RELOADING_TIME as int,
            GunType::Rifle => RIFLE_RELOADING_TIME as int,
            GunType::Unarmed => 0,
        }
    }

    /// How far a bullet of the gun flies, in steps.
    pub fn reach(&self) -> (length: u32)
        ensures
            length == match *self {
                GunType::Sniper => SNIPER_LENGTH,
                GunType::Shotgun => SHOTGUN_LENGTH,
                GunType::Rifle => RIFLE_LENGTH,
                GunType::Unarmed => 0,
            },
    {
        match *self {
            GunType::Sniper => SNIPER_LENGTH,
            GunType::Shotgun => SHOTGUN_LENGTH,
            GunType::Rifle => RIFLE_LENGTH,
            GunType::Unarmed => 0,
        }
    }

    /// What a bullet of the gun takes from a body that it hits.
    pub fn damage(&self) -> (points: u32)
        ensures
            points == match *self {
                GunType::Sniper => SNIPER_DAMAGE,
                GunType::Shotgun => SHOTGUN_DAMAGE,
                GunType::Rifle => RIFLE_DAMAGE,
                GunType::Unarmed => 0,
            },
    {
        match *self {
            GunType::Sniper => SNIPER_DAMAGE,
            GunType::Shotgun => SHOTGUN_DAMAGE,
            GunType::Rifle => RIFLE_DAMAGE,
            GunType::Unarmed => 0,
        }
    }

    /// How many bullets leave the gun with one shot.
    pub fn bullets(&self) -> (count: u32)
        ensures
            count == match *self {
                GunType::Shotgun => SHOTGUN_SHOOT_NUMBER,
                GunType::Unarmed => 0,
                _ => 1,
            },
    {
        match *self {
            GunType::Shotgun => SHOTGUN_SHOOT_NUMBER,
            GunType::Unarmed => 0,
            _ => 1,
        }
    }

    /// Whether a bullet of the gun ends at the body that it has hit. A
    /// sniper bullet ends only at a body whose group has a bit of `walls`.
    pub open spec fn ends_at(self, body: EntityInformation, walls: u32) -> bool {
        !(self == GunType::Sniper && body.group & walls == 0)
    }
}

/// A gun in the hand of a character.
#[derive(Clone, Copy, PartialEq, Eq, Structural, Debug)]
pub struct Gun {
    pub gun_type: GunType,
    /// The gun that the character takes at the next armory.
    pub next_type: GunType,
    /// Time until the gun can fire again. While the trigger is held it can
    /// fall below zero; the next shot then comes that much sooner.
    pub reloading: i64,
    pub shooting: bool,
    pub ammo: u32,
}

impl Gun {
    /// The gun that a character starts with.
    pub open spec fn first() -> Gun {
        Gun {
            gun_type: GunType::Rifle,
            next_type: GunType::Rifle,
            reloading: 0,
            shooting: false,
            ammo: 10000000,
        }
    }

    /// The gun that a character starts with: a rifle, ready to fire.
    pub fn new() -> (gun: Gun)
        ensures
            gun == Gun::first(),
    {
        Gun {
            gun_type: GunType::Rifle,
            next_type: GunType::Rifle,
            shooting: false,
            reloading: 0,
            ammo: 10000000,
        }
    }

    /// Time between two shots of the gun in hand.
    pub fn time_to_reload(&self) -> (time: u32)
        ensures
            time == self.gun_type.reloading_time(),
    {
        match self.gun_type {
            GunType::Sniper => SNIPER_RELOADING_TIME,
            GunType::Shotgun => SHOTGUN_RELOADING_TIME,
            GunType::Rifle => RIFLE_RELOADING_TIME,
            GunType::Unarmed => 0,
        }
    }

    /// Whether the character is waiting for an armory to change guns.
    pub fn wants_armory(&self) -> (wanted: bool)
        ensures
            wanted == (self.next_type != self.gun_type),
    {
        self.next_type != self.gun_type
    }

    /// The gun in hand after a tick: the next gun if the character stands
    /// on an armory, else the gun as before.
    pub open spec fn in_hand(self, on_armory: bool) -> GunType {
        if on_armory {
            self.next_type
        } else {
            self.gun_type
        }
    }

    /// Whether the gun fires in a tick: it has ammunition, is not
    /// reloading, and the trigger is held.
    pub open spec fn fires(self) -> bool {
        self.ammo > 0 && self.reloading <= 0 && self.shooting
    }

    /// The gun after a tick of `dt` milliseconds.
    pub open spec fn after(self, dt: u32, on_armory: bool) -> Gun {
        let gun_type = self.in_hand(on_armory);
        if self.ammo == 0 {
            Gun { gun_type, ..self }
        } else if self.reloading > 0 {
            if self.shooting {
                Gun { gun_type, reloading: (self.reloading - dt) as i64, ..self }
            } else if self.reloading > dt {
                Gun { gun_type, reloading: (self.reloading - dt) as i64, ..self }
            } else {
                Gun { gun_type, reloading: 0, ..self }
            }
        } else if self.shooting {
            Gun {
                gun_type,
                reloading: (self.reloading + gun_type.reloading_time()) as i64,
                ammo: (self.ammo - 1) as u32,
                ..self
            }
        } else {
            Gun { gun_type, ..self }
        }
    }

    /// Lets `dt` milliseconds pass and says whether the gun fires. The
    /// character changes to the next gun if it stands on an armory. A gun with
    /// ammunition counts its reloading time down and, once that is over and
    /// the trigger is held, fires: it loses one round and reloads.
    pub fn update(&mut self, dt: u32, on_armory: bool) -> (fire: bool)
        ensures
            *final(self) == old(self).after(dt, on_armory),
            fire == old(self).fires(),
    {
        if on_armory {
            self.gun_type = self.next_type;
        }
        let mut fire = false;
        if self.ammo > 0 {
            if self.reloading > 0 {
                if self.shooting {
                    self.reloading = self.reloading - dt as i64;
                } else if self.reloading > dt as i64 {
                    self.reloading = self.reloading - dt as i64;
                } else {
                    self.reloading = 0;
                }
            } else if self.shooting {
                fire = true;
                self.ammo = self.ammo - 1;
                self.reloading = self.reloading + self.time_to_reload() as i64;
            }
        }
        fire
    }
}

/// What became of one bullet.
#[derive(Debug)]
pub struct Shot {
    /// The bodies hit, nearest first. For a sniper bullet the wall that
    /// ended it is not among them.
    pub damaged: Vec<u64>,
    /// How far the bullet flew, in steps.
    pub length: i64,
}

/// The number of hits at the head of a list at which a bullet of the gun
/// does not end.
pub open spec fn passed(hits: Seq<RayHit>, gun: GunType, walls: u32) -> int
    decreases hits.len(),
{
    if hits.len() == 0 {
        0
    } else if gun.ends_at(hits[0].entity, walls) {
        0
    } else {
        1 + passed(hits.skip(1), gun, walls)
    }
}

/// The ids of the bodies of a list of hits.
pub open spec fn bodies(hits: Seq<RayHit>) -> Seq<u64> {
    Seq::new(hits.len(), |i: int| hits[i].entity.entity)
}

/// The place at which a bullet ends is the first at which it can end.
pub proof fn lemma_passed(hits: Seq<RayHit>, gun: GunType, walls: u32, k: int)
    requires
        0 <= k <= hits.len(),
        forall|i: int| 0 <= i < k ==> !gun.ends_at(#[trigger] hits[i].entity, walls),
        k < hits.len() ==> gun.ends_at(hits[k].entity, walls),
    ensures
        passed(hits, gun, walls) == k,
    decreases hits.len(),
{
    if hits.len() > 0 && k > 0 {
        let rest = hits.skip(1);
        assert forall|i: int| 0 <= i < k - 1 implies !gun.ends_at(
            #[trigger] rest[i].entity,
            walls,
        ) by {
            assert(rest[i] == hits[i + 1]);
        }
        if k < hits.len() {
            assert(rest[k - 1] == hits[k]);
        }
        lemma_passed(rest, gun, walls, k - 1);
    }
}

impl PhysicWorld {
    /// What a bullet of the gun along the ray hits: the bodies on the ray's
    /// way, nearest first, up to the one at which the bullet ends.
    pub open spec fn shot_hits(&self, gun: GunType, ray: RayCast, walls: u32) -> Seq<RayHit> {
        let all = self.ray_hits(ray@);
        let through = passed(all, gun, walls);
        if gun == GunType::Unarmed {
            Seq::empty()
        } else if gun == GunType::Sniper {
            all.take(through)
        } else if all.len() > 0 {
            all.take(1)
        } else {
            all
        }
    }

    /// How far a bullet of the gun along the ray flies: to the near end of
    /// the body at which it ends, or the length of the ray.
    pub open spec fn shot_length(&self, gun: GunType, ray: RayCast, walls: u32) -> int {
        let all = self.ray_hits(ray@);
        let through = passed(all, gun, walls);
        if gun == GunType::Unarmed {
            0
        } else if through < all.len() {
            all[through].min as int
        } else {
            ray.length as int
        }
    }

    /// Sends one bullet of the gun along the ray. A bullet of a rifle or a
    /// shotgun damages the first body that the ray meets and ends there. A
    /// sniper bullet damages every body up to the first one whose group has a
    /// bit of `walls`, and ends at that one. The ray is followed no further than
    /// the bullet flies. The one who shoots belongs in the ray's list of ids
    /// that are left out. Without a gun there is no bullet: nothing is hit,
    /// and the length is zero.
    pub fn shoot(&self, gun: GunType, ray: &RayCast, walls: u32) -> (shot: Shot)
        ensures
            shot.damaged@ == bodies(self.shot_hits(gun, *ray, walls)),
            shot.length == self.shot_length(gun, *ray, walls),
    {
        if gun == GunType::Unarmed {
            let nothing: Vec<u64> = Vec::new();
            proof {
                assert(nothing@ =~= bodies(Seq::<RayHit>::empty()));
            }
            return Shot { damaged: nothing, length: 0 };
        }
        let pierces = gun == GunType::Sniper;
        let decide = |body: &EntityInformation, min: i64, max: i64| -> (answer: ContinueOrStop)
            ensures
                answer == if pierces && body.group & walls == 0 {
                    ContinueOrStop::Continue
                } else {
                    ContinueOrStop::Stop
                },
            {
                if pierces && body.group & walls == 0 {
                    ContinueOrStop::Continue
                } else {
                    ContinueOrStop::Stop
                }
            };
        let trace = self.raycast(ray, &decide);
        let ghost all = self.ray_hits(ray@);
        let count = trace.hits.len();
        proof {
            self.lemma_reported_grows(ray@, trace.cells as int, ray@.legs().len() as int);
            assert(trace.hits@ =~= all.take(count as int));
            let k = if trace.stopped {
                count - 1
            } else {
                count as int
            };
            assert forall|i: int| 0 <= i < k implies !gun.ends_at(
                #[trigger] all[i].entity,
                walls,
            ) by {
                assert(trace.hits@[i] == all[i]);
                assert(call_ensures(
                    decide,
                    (&trace.hits@[i].entity, trace.hits@[i].min, trace.hits@[i].max),
                    ContinueOrStop::Continue,
                ));
            }
            if trace.stopped {
                assert(trace.hits@[k] == all[k]);
                assert(call_ensures(
                    decide,
                    (&trace.hits@[k].entity, trace.hits@[k].min, trace.hits@[k].max),
                    ContinueOrStop::Stop,
                ));
            }
            lemma_passed(all, gun, walls, k);
        }
        let ended = trace.stopped;
        let length = if ended {
            trace.hits[count - 1].min
        } else {
            ray.length as i64
        };
        let spared = if ended && pierces {
            count - 1
        } else {
            count
        };
        let mut damaged: Vec<u64> = Vec::new();
        let mut i: usize = 0;
        while i < spared
            invariant
                i <= spared <= count,
                count == trace.hits@.len(),
                damaged@ == bodies(trace.hits@.take(i as int)),
            decreases spared - i,
        {
            damaged.push(trace.hits[i].entity.entity);
            proof {
                assert(damaged@ =~= bodies(trace.hits@.take(i + 1)));
            }
            i += 1;
        }
        proof {
            assert(trace.hits@.take(spared as int) =~= self.shot_hits(gun, *ray, walls));
        }
        Shot { damaged, length }
    }
}

} // verus!
