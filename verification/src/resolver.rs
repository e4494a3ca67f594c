//! The bulk overlap pass of a tick: for one moving body after the other,
//! which bodies it is in contact with and what the two have to do about it.
//!
//! The grid decides; the bodies act. For each pair in contact the body that
//! asked corrects itself, then the other does, and only then are both told of
//! the collision, so that whoever reacts sees the corrected state. A body that
//! shares several cells with the one that asked is still paired with it only
//! once.

use vstd::prelude::*;
use crate::collision::contact;
use crate::collision::lemma_contact_symmetric;
use crate::collision::shape_collision;
use crate::collision::Collision;
use crate::entity::listed;
use crate::entity::EntityInformation;
use crate::entity::ShapeCast;
use crate::entity::ShapeHit;
use crate::entity::ShapeQuery;
use crate::geometry::Cell;
use crate::world::covering;
use crate::world::PhysicWorld;

verus! {

/// One thing for a body to do about another body that it is in contact with.
#[derive(Clone, Copy, PartialEq, Eq, Structural, Debug)]
pub enum Reaction {
    /// `body` corrects its own state against `other`; `collision` is the
    /// contact as `body` sees it, with the normal pointing at `other`.
    Resolve { body: u64, other: u64, collision: Collision },
    /// `body` is told that it has collided with `other`.
    OnCollision { body: u64, other: u64 },
}

/// The query by which a body asks for everything that it collides with:
/// its own shape at its own position, with its own group and mask, leaving
/// out itself.
pub open spec fn body_query(body: EntityInformation) -> ShapeQuery {
    ShapeQuery {
        pos: body.pos,
        shape: body.shape,
        group: body.group,
        mask: body.mask,
        not: seq![body.entity],
    }
}

/// The query by which a body asks for everything that it collides with.
pub fn body_cast(body: &EntityInformation) -> (cast: ShapeCast)
    ensures
        cast@ == body_query(*body),
{
    let mut not: Vec<u64> = Vec::new();
    not.push(body.entity);
    proof {
        assert(not@ =~= seq![body.entity]);
    }
    ShapeCast { pos: body.pos, shape: body.shape, group: body.group, mask: body.mask, not }
}

/// Whether one of the hits is a hit of the body with the given id.
pub open spec fn names(hits: Seq<ShapeHit>, id: u64) -> bool {
    exists|i: int| 0 <= i < hits.len() && (#[trigger] hits[i]).entity.entity == id
}

/// The hits without those of a body that an earlier hit has named already.
pub open spec fn first_hits(hits: Seq<ShapeHit>) -> Seq<ShapeHit>
    decreases hits.len(),
{
    if hits.len() == 0 {
        Seq::empty()
    } else {
        let before = first_hits(hits.drop_last());
        if names(hits.drop_last(), hits.last().entity.entity) {
            before
        } else {
            before.push(hits.last())
        }
    }
}

/// What a body and a body that it hit have to do, in this order: each
/// corrects itself against the other, the one that asked first, and then each
/// is told of the collision, the one that asked first.
pub open spec fn pair_reactions(body: EntityInformation, hit: ShapeHit) -> Seq<Reaction> {
    seq![
        Reaction::Resolve {
            body: body.entity,
            other: hit.entity.entity,
            collision: hit.collision,
        },
        Reaction::Resolve {
            body: hit.entity.entity,
            other: body.entity,
            collision: hit.collision.reversed(),
        },
        Reaction::OnCollision { body: body.entity, other: hit.entity.entity },
        Reaction::OnCollision { body: hit.entity.entity, other: body.entity },
    ]
}

/// What a body and the bodies that it hit have to do, hit by hit.
pub open spec fn reactions(body: EntityInformation, hits: Seq<ShapeHit>) -> Seq<Reaction>
    decreases hits.len(),
{
    if hits.len() == 0 {
        Seq::empty()
    } else {
        reactions(body, hits.drop_last()) + pair_reactions(body, hits.last())
    }
}

/// Dropping the later hits of a body keeps the first hit of every body
/// and keeps no two hits of one body.
pub proof fn lemma_first_hits(hits: Seq<ShapeHit>)
    ensures
        forall|id: u64| names(first_hits(hits), id) <==> names(hits, id),
        forall|i: int, j: int|
            0 <= i < j < first_hits(hits).len() ==> (#[trigger] first_hits(hits)[i]).entity.entity
                != (#[trigger] first_hits(hits)[j]).entity.entity,
        forall|i: int|
            0 <= i < first_hits(hits).len() ==> hits.contains(#[trigger] first_hits(hits)[i]),
    decreases hits.len(),
{
    if hits.len() > 0 {
        let front = hits.drop_last();
        let last = hits.last();
        let n = hits.len() - 1;
        lemma_first_hits(front);
        let before = first_hits(front);
        let kept = first_hits(hits);
        assert forall|id: u64| names(kept, id) <==> names(hits, id) by {
            if names(kept, id) {
                let i = choose|i: int| 0 <= i < kept.len() && (#[trigger] kept[i]).entity.entity
                    == id;
                if i < before.len() {
                    assert(before[i].entity.entity == id);
                    assert(names(before, id));
                    assert(names(front, id));
                    let f = choose|f: int| 0 <= f < front.len() && (#[trigger] front[f]).entity.entity
                        == id;
                    assert(hits[f].entity.entity == id);
                } else {
                    assert(hits[n].entity.entity == id);
                }
            }
            if names(hits, id) {
                let f = choose|f: int| 0 <= f < hits.len() && (#[trigger] hits[f]).entity.entity
                    == id;
                if f < n {
                    assert(front[f].entity.entity == id);
                    assert(names(front, id));
                    assert(names(before, id));
                    let b = choose|b: int| 0 <= b < before.len() && (
                    #[trigger] before[b]).entity.entity == id;
                    assert(kept[b].entity.entity == id);
                } else if names(front, id) {
                    assert(names(before, id));
                    let b = choose|b: int| 0 <= b < before.len() && (
                    #[trigger] before[b]).entity.entity == id;
                    assert(kept[b].entity.entity == id);
                } else {
                    assert(kept[before.len() as int].entity.entity == id);
                }
            }
        }
        assert forall|i: int, j: int| 0 <= i < j < kept.len() implies (
        #[trigger] kept[i]).entity.entity != (#[trigger] kept[j]).entity.entity by {
            if j < before.len() {
                assert(before[i].entity.entity != before[j].entity.entity);
            } else {
                assert(before[i].entity.entity == kept[i].entity.entity);
                if kept[i].entity.entity == last.entity.entity {
                    assert(names(before, last.entity.entity));
                }
            }
        }
        assert forall|i: int| 0 <= i < kept.len() implies hits.contains(#[trigger] kept[i]) by {
            if i < before.len() {
                assert(front.contains(before[i]));
                let f = choose|f: int| 0 <= f < front.len() && front[f] == before[i];
                assert(hits[f] == kept[i]);
            } else {
                assert(hits[n] == kept[i]);
            }
        }
    }
}

/// With one more hit, the bodies named are those named before and the
/// body of that hit.
pub proof fn lemma_names_push(hits: Seq<ShapeHit>, hit: ShapeHit)
    ensures
        forall|id: u64|
            names(hits.push(hit), id) <==> names(hits, id) || hit.entity.entity == id,
{
    let more = hits.push(hit);
    assert forall|id: u64| names(more, id) <==> names(hits, id) || hit.entity.entity == id by {
        if names(more, id) {
            let i = choose|i: int| 0 <= i < more.len() && (#[trigger] more[i]).entity.entity == id;
            if i < hits.len() {
                assert(hits[i].entity.entity == id);
            }
        }
        if names(hits, id) {
            let i = choose|i: int| 0 <= i < hits.len() && (#[trigger] hits[i]).entity.entity == id;
            assert(more[i].entity.entity == id);
        }
        if hit.entity.entity == id {
            assert(more[hits.len() as int].entity.entity == id);
        }
    }
}

/// With one more id, a list holds what it held before and that id.
pub proof fn lemma_listed_push(ids: Seq<u64>, id: u64)
    ensures
        forall|other: u64| ids.push(id).contains(other) <==> ids.contains(other) || other == id,
{
    let more = ids.push(id);
    assert forall|other: u64| more.contains(other) <==> ids.contains(other) || other == id by {
        if more.contains(other) {
            let i = choose|i: int| 0 <= i < more.len() && more[i] == other;
            if i < ids.len() {
                assert(ids[i] == other);
            }
        }
        if ids.contains(other) {
            let i = choose|i: int| 0 <= i < ids.len() && ids[i] == other;
            assert(more[i] == other);
        }
        if other == id {
            assert(more[ids.len() as int] == other);
        }
    }
}

impl PhysicWorld {
    /// What a body and the bodies recorded in the grid have to do about the
    /// contacts between them: the reactions for the first hit of each body that
    /// the body's own query finds.
    pub open spec fn collisions_of(&self, body: EntityInformation) -> Seq<Reaction> {
        reactions(body, first_hits(self.shape_hits(body_query(body))))
    }

    /// The body's own query never hits the body itself.
    pub proof fn lemma_never_self(&self, body: EntityInformation, i: int)
        requires
            0 <= i < self.shape_hits(body_query(body)).len(),
        ensures
            self.shape_hits(body_query(body))[i].entity.entity != body.entity,
    {
        self.lemma_shape_hits_sound(body_query(body), i);
        assert(body_query(body).not[0] == body.entity);
    }

    /// Finds the bodies that a body is in contact with and lists what is to
    /// be done, pair by pair in the order in which the grid reports them: the
    /// body corrects itself against the other, the other against the body, the
    /// body is told of the collision, the other is told. Each body found is
    /// paired once, however many cells it shares with the one that asks.
    pub fn collide(&self, body: &EntityInformation) -> (steps: Vec<Reaction>)
        ensures
            steps@ == self.collisions_of(*body),
    {
        let cast = body_cast(body);
        let hits = self.apply_on_shape(&cast);
        let mut met: Vec<u64> = Vec::new();
        let mut steps: Vec<Reaction> = Vec::new();
        let mut i: usize = 0;
        while i < hits.len()
            invariant
                i <= hits.len(),
                cast@ == body_query(*body),
                hits@ == self.shape_hits(body_query(*body)),
                steps@ == reactions(*body, first_hits(hits@.take(i as int))),
                forall|id: u64| met@.contains(id) <==> names(hits@.take(i as int), id),
            decreases hits.len() - i,
        {
            let hit = hits[i];
            let id = hit.entity.entity;
            let ghost before = hits@.take(i as int);
            let ghost known = met@;
            let ghost upto = hits@.take(i + 1);
            proof {
                assert(upto =~= before.push(hit));
                assert(upto.drop_last() =~= before);
                assert(upto.last() == hit);
                lemma_names_push(before, hit);
                lemma_listed_push(known, id);
            }
            if !listed(&met, id) {
                met.push(id);
                let back = shape_collision(hit.entity.pos, &hit.entity.shape, body.pos, &body.shape);
                proof {
                    self.lemma_shape_hits_sound(body_query(*body), i as int);
                    lemma_contact_symmetric(body.pos, body.shape, hit.entity.pos, hit.entity.shape);
                    assert(back == Some(hit.collision.reversed()));
                }
                let seen_back = match back {
                    Some(collision) => collision,
                    None => hit.collision,
                };
                let ghost done = steps@;
                steps.push(Reaction::Resolve { body: body.entity, other: id, collision: hit.collision });
                steps.push(Reaction::Resolve { body: id, other: body.entity, collision: seen_back });
                steps.push(Reaction::OnCollision { body: body.entity, other: id });
                steps.push(Reaction::OnCollision { body: id, other: body.entity });
                proof {
                    assert(steps@ =~= done + pair_reactions(*body, hit));
                    assert(first_hits(upto).drop_last() =~= first_hits(before));
                    assert(met@ =~= known.push(id));
                }
            }
            proof {
                assert forall|other: u64| met@.contains(other) <==> names(upto, other) by {
                    assert(known.contains(other) <==> names(before, other));
                    assert(known.contains(id) ==> met@ == known);
                }
            }
            i += 1;
        }
        proof {
            assert(hits@.take(hits.len() as int) =~= hits@);
        }
        steps
    }

    /// Forgets the movable bodies and records them anew where they are
    /// now: afterwards each cell holds, in the order given, exactly the movable
    /// bodies that cover it, and the inert bodies are as they were.
    pub fn refresh_dynamic(&mut self, dynamics: &Vec<EntityInformation>)
        requires
            old(self).wf(),
        ensures
            final(self).wf(),
            forall|cell: Cell| #[trigger]
                final(self).movable_at(cell) == covering(dynamics@, cell),
            forall|cell: Cell| #[trigger] final(self).inert_at(cell) == old(self).inert_at(cell),
    {
        self.clear_dynamic();
        let mut i: usize = 0;
        while i < dynamics.len()
            invariant
                i <= dynamics.len(),
                self.wf(),
                forall|cell: Cell| #[trigger]
                    self.movable_at(cell) == covering(dynamics@.take(i as int), cell),
                forall|cell: Cell| #[trigger] self.inert_at(cell) == old(self).inert_at(cell),
            decreases dynamics.len() - i,
        {
            proof {
                assert(dynamics@.take(i + 1).drop_last() =~= dynamics@.take(i as int));
            }
            self.insert_dynamic(dynamics[i]);
            i += 1;
        }
        proof {
            assert(dynamics@.take(dynamics.len() as int) =~= dynamics@);
        }
    }
}

} // verus!
