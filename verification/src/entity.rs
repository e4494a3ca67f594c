//! What the grid records of a body, and the two kinds of query.
//!
//! Every body and every query carries a `group` ("what I am") and a `mask`
//! ("what I interact with"). A query meets a body only if each one's group has
//! a bit in the other one's mask, and the body is not among those the query
//! leaves out by id.

use vstd::prelude::*;
use crate::collision::contact;
use crate::collision::Collision;
use crate::geometry::Point;
use crate::geometry::Shape;

verus! {

/// A body as the grid records it: a copy taken when the body was inserted.
#[derive(Clone, Copy, PartialEq, Eq, Structural, Debug)]
pub struct EntityInformation {
    /// The stable id of the body.
    pub entity: u64,
    pub pos: Point,
    pub group: u32,
    pub mask: u32,
    pub shape: Shape,
}

/// What a query callback answers: go on, or report nothing further.
#[derive(Clone, Copy, PartialEq, Eq, Structural, Debug)]
pub enum ContinueOrStop {
    Continue,
    Stop,
}

/// A body found by a shape query, with its contact as seen from the
/// query's shape.
#[derive(Clone, Copy, PartialEq, Eq, Structural, Debug)]
pub struct ShapeHit {
    pub entity: EntityInformation,
    pub collision: Collision,
}

/// A one-shot query for the bodies that overlap a shape.
#[derive(Clone, Debug)]
pub struct ShapeCast {
    pub pos: Point,
    pub shape: Shape,
    pub group: u32,
    pub mask: u32,
    /// Ids of the bodies that the query never reports.
    pub not: Vec<u64>,
}

/// Whether a body and a query interact: each group has a bit in the other's mask.
pub open spec fn interacts(body_group: u32, body_mask: u32, group: u32, mask: u32) -> bool {
    body_group & mask != 0 && body_mask & group != 0
}

/// Whether a query with the given filter takes a body as a candidate.
pub open spec fn passes(body: EntityInformation, group: u32, mask: u32, not: Seq<u64>) -> bool {
    !not.contains(body.entity) && interacts(body.group, body.mask, group, mask)
}

/// Whether `id` is among `ids`.
pub fn listed(ids: &Vec<u64>, id: u64) -> (found: bool)
    ensures
        found == ids@.contains(id),
{
    let mut i: usize = 0;
    while i < ids.len()
        invariant
            i <= ids.len(),
            forall|j: int| 0 <= j < i ==> ids@[j] != id,
        decreases ids.len() - i,
    {
        if ids[i] == id {
            return true;
        }
        i += 1;
    }
    false
}

/// Tests a body against a query's filter.
pub fn admits(body: &EntityInformation, group: u32, mask: u32, not: &Vec<u64>) -> (ok: bool)
    ensures
        ok == passes(*body, group, mask, not@),
{
    if listed(not, body.entity) {
        return false;
    }
    if body.group & mask == 0 {
        return false;
    }
    if body.mask & group == 0 {
        return false;
    }
    true
}

/// A shape query as contracts see it: the query with its list of ids as a
/// sequence.
pub struct ShapeQuery {
    pub pos: Point,
    pub shape: Shape,
    pub group: u32,
    pub mask: u32,
    pub not: Seq<u64>,
}

impl View for ShapeCast {
    type V = ShapeQuery;

    open spec fn view(&self) -> ShapeQuery {
        ShapeQuery {
            pos: self.pos,
            shape: self.shape,
            group: self.group,
            mask: self.mask,
            not: self.not@,
        }
    }
}

impl ShapeQuery {
    /// Whether the query takes the body as a candidate.
    pub open spec fn accepts(self, body: EntityInformation) -> bool {
        passes(body, self.group, self.mask, self.not)
    }

    /// What the query reports of one body: its contact with the query's
    /// shape, if the body is a candidate and the shapes overlap.
    pub open spec fn hit(self, body: EntityInformation) -> Option<ShapeHit> {
        if self.accepts(body) {
            match contact(self.pos, self.shape, body.pos, body.shape) {
                Some(collision) => Some(ShapeHit { entity: body, collision }),
                None => None,
            }
        } else {
            None
        }
    }

    /// What the query reports of a list of bodies: the hits, in the order
    /// of the list.
    pub open spec fn hits_among(self, bodies: Seq<EntityInformation>) -> Seq<ShapeHit>
        decreases bodies.len(),
    {
        if bodies.len() == 0 {
            Seq::empty()
        } else {
            let before = self.hits_among(bodies.drop_last());
            match self.hit(bodies.last()) {
                Some(hit) => before.push(hit),
                None => before,
            }
        }
    }

    /// The hits among two lists, one after the other, are the hits among
    /// the first followed by the hits among the second.
    pub proof fn lemma_hits_among_concat(
        self,
        first: Seq<EntityInformation>,
        second: Seq<EntityInformation>,
    )
        ensures
            self.hits_among(first + second) == self.hits_among(first) + self.hits_among(second),
        decreases second.len(),
    {
        if second.len() == 0 {
            assert(first + second =~= first);
            assert(self.hits_among(first) + self.hits_among(second) =~= self.hits_among(first));
        } else {
            let both = first + second;
            assert(both.drop_last() =~= first + second.drop_last());
            assert(both.last() == second.last());
            self.lemma_hits_among_concat(first, second.drop_last());
            match self.hit(second.last()) {
                Some(hit) => {
                    assert((self.hits_among(first) + self.hits_among(second.drop_last())).push(hit)
                        =~= self.hits_among(first) + self.hits_among(second.drop_last()).push(
                        hit,
                    ));
                },
                None => {},
            }
        }
    }

    /// Every hit among a list is the hit of a body of the list.
    pub proof fn lemma_hits_among_sound(self, bodies: Seq<EntityInformation>, i: int)
        requires
            0 <= i < self.hits_among(bodies).len(),
        ensures
            bodies.contains(self.hits_among(bodies)[i].entity),
            self.hit(self.hits_among(bodies)[i].entity) == Some(self.hits_among(bodies)[i]),
        decreases bodies.len(),
    {
        if bodies.len() > 0 {
            let before = self.hits_among(bodies.drop_last());
            if i < before.len() {
                self.lemma_hits_among_sound(bodies.drop_last(), i);
                let found = before[i].entity;
                let j = choose|j: int| 0 <= j < bodies.drop_last().len() && bodies.drop_last()[j] == found;
                assert(bodies[j] == found);
            } else {
                assert(bodies[bodies.len() - 1] == bodies.last());
            }
        }
    }

    /// Every body of a list that the query hits is among the hits.
    pub proof fn lemma_hits_among_complete(self, bodies: Seq<EntityInformation>, j: int) -> (i: int)
        requires
            0 <= j < bodies.len(),
            self.hit(bodies[j]) is Some,
        ensures
            0 <= i < self.hits_among(bodies).len(),
            self.hits_among(bodies)[i] == self.hit(bodies[j]).unwrap(),
        decreases bodies.len(),
    {
        let before = self.hits_among(bodies.drop_last());
        if j == bodies.len() - 1 {
            before.len() as int
        } else {
            self.lemma_hits_among_complete(bodies.drop_last(), j)
        }
    }

}

impl ShapeCast {
    /// Scans a list of bodies and appends the hits to `found`.
    pub fn collect(&self, bodies: &Vec<EntityInformation>, found: &mut Vec<ShapeHit>)
        ensures
            final(found)@ == old(found)@ + self@.hits_among(bodies@),
    {
        let mut i: usize = 0;
        proof {
            assert(bodies@.take(0) =~= Seq::empty());
            assert(found@ + self@.hits_among(bodies@.take(0)) =~= found@);
        }
        while i < bodies.len()
            invariant
                i <= bodies.len(),
                found@ == old(found)@ + self@.hits_among(bodies@.take(i as int)),
            decreases bodies.len() - i,
        {
            let body = &bodies[i];
            proof {
                let upto = bodies@.take(i + 1);
                assert(upto.drop_last() =~= bodies@.take(i as int));
                assert(upto.last() == bodies@[i as int]);
            }
            if admits(body, self.group, self.mask, &self.not) {
                match crate::collision::shape_collision(self.pos, &self.shape, body.pos, &body.shape) {
                    Some(collision) => {
                        found.push(ShapeHit { entity: *body, collision });
                        proof {
                            let hit = ShapeHit { entity: *body, collision };
                            assert(found@ =~= old(found)@ + self@.hits_among(
                                bodies@.take(i as int),
                            ).push(hit));
                        }
                    },
                    None => {},
                }
            }
            i += 1;
        }
        proof {
            assert(bodies@.take(bodies.len() as int) =~= bodies@);
        }
    }
}

} // verus!
