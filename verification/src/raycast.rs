//! The ray query: the bodies along a ray, nearest first, reported one by
//! one to a callback that can end the query.
//!
//! The ray is followed cell by cell. Bodies found in a cell wait until the
//! ray has left the cell in which their near end lies; after each cell those
//! that need wait no longer are reported in the order of their near ends. A
//! callback that answers "stop" ends the query at once: no later cell is
//! looked at.

use vstd::prelude::*;
use vstd::std_specs::hash::*;
use std::collections::HashSet;
use crate::entity::admits;
use crate::entity::ContinueOrStop;
use crate::entity::EntityInformation;
use crate::geometry::Cell;
use crate::ray::RayCast;
use crate::ray::RayHit;
use crate::ray::RayQuery;
use crate::world::PhysicWorld;

verus! {

/// What a ray query did.
#[derive(Debug)]
pub struct RayTrace {
    /// The hits that were handed to the callback, in that order.
    pub hits: Vec<RayHit>,
    /// How many cells of the ray's way were looked at.
    pub cells: usize,
    /// Whether the callback ended the query.
    pub stopped: bool,
}

/// The hits of a list that need wait no longer once the ray has come as
/// far as `limit`: those whose near end lies no further. Their order is kept.
pub open spec fn due(waiting: Seq<RayHit>, limit: int) -> Seq<RayHit>
    decreases waiting.len(),
{
    if waiting.len() == 0 {
        Seq::empty()
    } else if waiting.last().min <= limit {
        due(waiting.drop_last(), limit).push(waiting.last())
    } else {
        due(waiting.drop_last(), limit)
    }
}

/// The hits of a list that still have to wait when the ray has come as far
/// as `limit`: those whose near end lies further. Their order is kept.
pub open spec fn held(waiting: Seq<RayHit>, limit: int) -> Seq<RayHit>
    decreases waiting.len(),
{
    if waiting.len() == 0 {
        Seq::empty()
    } else if waiting.last().min <= limit {
        held(waiting.drop_last(), limit)
    } else {
        held(waiting.drop_last(), limit).push(waiting.last())
    }
}

/// The place of a hit in a list ordered by near end: behind every hit
/// that lies no further than it.
pub open spec fn slot(sorted: Seq<RayHit>, hit: RayHit) -> int
    decreases sorted.len(),
{
    if sorted.len() == 0 {
        0
    } else if sorted.last().min <= hit.min {
        sorted.len() as int
    } else {
        slot(sorted.drop_last(), hit)
    }
}

/// The hits of a list in the order of their near ends, nearest first; hits
/// with the same near end stay in the order of the list.
pub open spec fn ordered(hits: Seq<RayHit>) -> Seq<RayHit>
    decreases hits.len(),
{
    if hits.len() == 0 {
        Seq::empty()
    } else {
        let before = ordered(hits.drop_last());
        before.insert(slot(before, hits.last()), hits.last())
    }
}

/// The place of a hit lies within the list or at its end.
pub proof fn lemma_slot_in_range(sorted: Seq<RayHit>, hit: RayHit)
    ensures
        0 <= slot(sorted, hit) <= sorted.len(),
    decreases sorted.len(),
{
    if sorted.len() > 0 && sorted.last().min > hit.min {
        lemma_slot_in_range(sorted.drop_last(), hit);
    }
}

/// Ordering keeps the number of hits.
pub proof fn lemma_ordered_len(hits: Seq<RayHit>)
    ensures
        ordered(hits).len() == hits.len(),
    decreases hits.len(),
{
    if hits.len() > 0 {
        lemma_ordered_len(hits.drop_last());
        lemma_slot_in_range(ordered(hits.drop_last()), hits.last());
    }
}

/// Splits the waiting hits into those that are due at `limit` and those
/// that are held back.
fn split(waiting: &Vec<RayHit>, limit: i64) -> (parts: (Vec<RayHit>, Vec<RayHit>))
    ensures
        parts.0@ == due(waiting@, limit as int),
        parts.1@ == held(waiting@, limit as int),
{
    let mut now: Vec<RayHit> = Vec::new();
    let mut later: Vec<RayHit> = Vec::new();
    let mut i: usize = 0;
    while i < waiting.len()
        invariant
            i <= waiting.len(),
            now@ == due(waiting@.take(i as int), limit as int),
            later@ == held(waiting@.take(i as int), limit as int),
        decreases waiting.len() - i,
    {
        proof {
            assert(waiting@.take(i + 1).drop_last() =~= waiting@.take(i as int));
        }
        let hit = waiting[i];
        if hit.min <= limit {
            now.push(hit);
        } else {
            later.push(hit);
        }
        i += 1;
    }
    proof {
        assert(waiting@.take(waiting.len() as int) =~= waiting@);
    }
    (now, later)
}

/// Puts hits in the order of their near ends, nearest first, keeping the
/// given order among hits with the same near end.
pub fn sort_hits(hits: &Vec<RayHit>) -> (sorted: Vec<RayHit>)
    ensures
        sorted@ == ordered(hits@),
{
    let mut sorted: Vec<RayHit> = Vec::new();
    let mut i: usize = 0;
    while i < hits.len()
        invariant
            i <= hits.len(),
            sorted@ == ordered(hits@.take(i as int)),
            sorted@.len() == i,
        decreases hits.len() - i,
    {
        let hit = hits[i];
        let mut place: usize = sorted.len();
        proof {
            assert(sorted@.take(place as int) =~= sorted@);
        }
        while place > 0 && sorted[place - 1].min > hit.min
            invariant
                place <= sorted.len(),
                slot(sorted@, hit) == slot(sorted@.take(place as int), hit),
            decreases place,
        {
            proof {
                assert(sorted@.take(place as int).drop_last() =~= sorted@.take(place - 1));
            }
            place -= 1;
        }
        proof {
            assert(hits@.take(i + 1).drop_last() =~= hits@.take(i as int));
        }
        sorted.insert(place, hit);
        i += 1;
    }
    proof {
        assert(hits@.take(hits.len() as int) =~= hits@);
    }
    sorted
}

impl RayQuery {
    /// What looking at a list of bodies does to a query under way. A body
    /// that the filter lets through and that was not looked at before is marked
    /// as seen, and its hit, if the ray meets it, joins the waiting hits.
    pub open spec fn gather(
        self,
        seen: Set<u64>,
        waiting: Seq<RayHit>,
        bodies: Seq<EntityInformation>,
    ) -> (Set<u64>, Seq<RayHit>)
        decreases bodies.len(),
    {
        if bodies.len() == 0 {
            (seen, waiting)
        } else {
            let before = self.gather(seen, waiting, bodies.drop_last());
            let body = bodies.last();
            if !self.accepts(body) || before.0.contains(body.entity) {
                before
            } else {
                (
                    before.0.insert(body.entity),
                    match self.meet(body) {
                        Some(hit) => before.1.push(hit),
                        None => before.1,
                    },
                )
            }
        }
    }

    /// Looking at two lists one after the other is looking at both put
    /// together.
    pub proof fn lemma_gather_concat(
        self,
        seen: Set<u64>,
        waiting: Seq<RayHit>,
        first: Seq<EntityInformation>,
        second: Seq<EntityInformation>,
    )
        ensures
            self.gather(seen, waiting, first + second) == self.gather(
                self.gather(seen, waiting, first).0,
                self.gather(seen, waiting, first).1,
                second,
            ),
        decreases second.len(),
    {
        if second.len() == 0 {
            assert(first + second =~= first);
        } else {
            assert((first + second).drop_last() =~= first + second.drop_last());
            self.lemma_gather_concat(seen, waiting, first, second.drop_last());
        }
    }

}

impl RayCast {
    /// Tests one body against the ray: the ends of its stretch of the ray's
    /// line, unless the ray misses it.
    pub fn probe(&self, body: &EntityInformation) -> (hit: Option<RayHit>)
        ensures
            hit == self@.meet(*body),
    {
        match body.shape.raycast(body.pos, self.origin, self.angle) {
            Some(ends) => {
                if ends.1 < 0 || ends.0 > self.length as i64 {
                    None
                } else {
                    Some(RayHit { entity: *body, min: ends.0, max: ends.1 })
                }
            },
            None => None,
        }
    }

    /// Looks at the bodies of a list: marks the new candidates as seen and
    /// adds their hits to the waiting ones.
    fn look(&self, bodies: &Vec<EntityInformation>, seen: &mut HashSet<u64>, waiting: &mut Vec<RayHit>)
        ensures
            (final(seen)@, final(waiting)@) == self@.gather(old(seen)@, old(waiting)@, bodies@),
    {
        broadcast use group_hash_axioms;

        let mut i: usize = 0;
        while i < bodies.len()
            invariant
                i <= bodies.len(),
                (seen@, waiting@) == self@.gather(
                    old(seen)@,
                    old(waiting)@,
                    bodies@.take(i as int),
                ),
            decreases bodies.len() - i,
        {
            proof {
                assert(bodies@.take(i + 1).drop_last() =~= bodies@.take(i as int));
            }
            let body = &bodies[i];
            if admits(body, self.group, self.mask, &self.not) && !seen.contains(&body.entity) {
                seen.insert(body.entity);
                match self.probe(body) {
                    Some(hit) => {
                        waiting.push(hit);
                    },
                    None => {},
                }
            }
            i += 1;
        }
        proof {
            assert(bodies@.take(bodies.len() as int) =~= bodies@);
        }
    }
}

impl PhysicWorld {
    /// The bodies that a ray query looks at in a cell: the movable ones,
    /// then the inert ones.
    pub open spec fn ray_candidates(&self, cell: Cell) -> Seq<EntityInformation> {
        self.movable_at(cell) + self.inert_at(cell)
    }

    /// The ids seen and the hits waiting when the ray query has looked at
    /// the bodies of cell `k` of the ray's way, and has not yet reported what
    /// is due there.
    pub open spec fn gathered(&self, ray: RayQuery, k: int) -> (Set<u64>, Seq<RayHit>)
        decreases k,
    {
        if k < 0 {
            (Set::empty(), Seq::empty())
        } else if k == 0 {
            ray.gather(Set::empty(), Seq::empty(), self.ray_candidates(ray.legs()[0].cell))
        } else {
            let before = self.gathered(ray, k - 1);
            ray.gather(
                before.0,
                held(before.1, ray.legs()[k - 1].reach as int),
                self.ray_candidates(ray.legs()[k].cell),
            )
        }
    }

    /// The hits reported after cell `k` of the ray's way: the waiting hits
    /// whose near end lies no further than where the ray leaves the cell, nearest
    /// first.
    pub open spec fn batch(&self, ray: RayQuery, k: int) -> Seq<RayHit> {
        ordered(due(self.gathered(ray, k).1, ray.legs()[k].reach as int))
    }

    /// The hits reported while following the ray through its first `n`
    /// cells.
    pub open spec fn reported(&self, ray: RayQuery, n: int) -> Seq<RayHit>
        decreases n,
    {
        if n <= 0 {
            Seq::empty()
        } else {
            self.reported(ray, n - 1) + self.batch(ray, n - 1)
        }
    }

    /// Everything a ray query reports when it is never stopped.
    pub open spec fn ray_hits(&self, ray: RayQuery) -> Seq<RayHit> {
        self.reported(ray, ray.legs().len() as int)
    }

    /// The ray query. It follows the ray cell by cell and hands each hit to
    /// `callback`, with the body and the distances at which the ray's line
    /// enters and leaves it. After each cell it reports the waiting hits whose
    /// near end the ray has passed, nearest first. When the callback answers
    /// `Stop`, nothing more is reported and no further cell is looked at.
    ///
    /// The result says what was done: the hits handed to the callback are the
    /// first of those that the cells looked at give rise to; every answer but
    /// a final `Stop` was `Continue`; and a query that was not stopped has
    /// looked at every cell and reported every hit. Every hit is the hit of a
    /// body that the filter lets through, no body is reported twice, and
    /// where no body is found late the hits come nearest first.
    pub fn raycast<F: Fn(&EntityInformation, i64, i64) -> ContinueOrStop>(
        &self,
        ray: &RayCast,
        callback: &F,
    ) -> (trace: RayTrace)
        requires
            forall|body: &EntityInformation, min: i64, max: i64|
                call_requires(callback, (body, min, max)),
        ensures
            trace.cells <= ray@.legs().len(),
            trace.hits@ == self.reported(ray@, trace.cells as int).take(trace.hits@.len() as int),
            trace.hits@.len() <= self.reported(ray@, trace.cells as int).len(),
            trace.stopped ==> trace.cells >= 1 && trace.hits@.len() > self.reported(
                ray@,
                trace.cells - 1,
            ).len(),
            !trace.stopped ==> trace.cells == ray@.legs().len() && trace.hits@ == self.ray_hits(
                ray@,
            ),
            forall|i: int|
                0 <= i < trace.hits@.len() ==> call_ensures(
                    callback,
                    (&#[trigger] trace.hits@[i].entity, trace.hits@[i].min, trace.hits@[i].max),
                    if trace.stopped && i == trace.hits@.len() - 1 {
                        ContinueOrStop::Stop
                    } else {
                        ContinueOrStop::Continue
                    },
                ),
            forall|i: int|
                0 <= i < trace.hits@.len() ==> ray@.accepts((#[trigger] trace.hits@[i]).entity)
                    && ray@.meet(trace.hits@[i].entity) == Some(trace.hits@[i]),
            forall|i: int, j: int|
                0 <= i < j < trace.hits@.len() ==> (#[trigger] trace.hits@[i]).entity.entity != (
                #[trigger] trace.hits@[j]).entity.entity,
            self.timely(ray@) ==> ascending(trace.hits@),
    {
        let legs = ray.path();
        let mut seen: HashSet<u64> = HashSet::new();
        let mut waiting: Vec<RayHit> = Vec::new();
        let mut hits: Vec<RayHit> = Vec::new();
        let mut k: usize = 0;
        while k < legs.len()
            invariant
                k <= legs.len(),
                legs@ == ray@.legs(),
                forall|body: &EntityInformation, min: i64, max: i64|
                    call_requires(callback, (body, min, max)),
                hits@ == self.reported(ray@, k as int),
                seen@ == self.gathered(ray@, k - 1).0,
                k == 0 ==> waiting@ == self.gathered(ray@, k - 1).1,
                k > 0 ==> waiting@ == held(
                    self.gathered(ray@, k - 1).1,
                    ray@.legs()[k - 1].reach as int,
                ),
                forall|i: int|
                    0 <= i < hits@.len() ==> call_ensures(
                        callback,
                        (&#[trigger] hits@[i].entity, hits@[i].min, hits@[i].max),
                        ContinueOrStop::Continue,
                    ),
            decreases legs.len() - k,
        {
            let leg = legs[k];
            let ghost seen_before = seen@;
            let ghost waiting_before = waiting@;
            match self.movable_in(leg.cell) {
                Some(bodies) => {
                    ray.look(bodies, &mut seen, &mut waiting);
                },
                None => {},
            }
            match self.inert_in(leg.cell) {
                Some(bodies) => {
                    ray.look(bodies, &mut seen, &mut waiting);
                },
                None => {},
            }
            proof {
                ray@.lemma_gather_concat(
                    seen_before,
                    waiting_before,
                    self.movable_at(leg.cell),
                    self.inert_at(leg.cell),
                );
                assert((seen@, waiting@) == self.gathered(ray@, k as int));
            }
            let parts = split(&waiting, leg.reach);
            let now = sort_hits(&parts.0);
            waiting = parts.1;
            proof {
                lemma_ordered_len(parts.0@);
                assert(now@ == self.batch(ray@, k as int));
                assert(self.reported(ray@, k + 1) == hits@ + now@);
            }
            let ghost start = hits@;
            let mut j: usize = 0;
            while j < now.len()
                invariant
                    j <= now.len(),
                    k < legs.len(),
                    legs@ == ray@.legs(),
                    forall|body: &EntityInformation, min: i64, max: i64|
                        call_requires(callback, (body, min, max)),
                    start == self.reported(ray@, k as int),
                    self.reported(ray@, k + 1) == start + now@,
                    hits@ == start + now@.take(j as int),
                    forall|i: int|
                        0 <= i < hits@.len() ==> call_ensures(
                            callback,
                            (&#[trigger] hits@[i].entity, hits@[i].min, hits@[i].max),
                            ContinueOrStop::Continue,
                        ),
                decreases now.len() - j,
            {
                let hit = now[j];
                let ghost told = hits@;
                hits.push(hit);
                proof {
                    assert(hits@ =~= start + now@.take(j + 1));
                    assert(hits@ =~= (start + now@).take(hits@.len() as int));
                    assert forall|i: int| 0 <= i < told.len() implies hits@[i] == told[i] by {}
                }
                let answer = callback(&hit.entity, hit.min, hit.max);
                if answer == ContinueOrStop::Stop {
                    proof {
                        self.lemma_told(ray@, k + 1, hits@);
                    }
                    return RayTrace { hits, cells: k + 1, stopped: true };
                }
                j += 1;
            }
            proof {
                assert(now@.take(now.len() as int) =~= now@);
            }
            k += 1;
        }
        proof {
            let all = self.reported(ray@, k as int);
            assert(all.take(all.len() as int) =~= all);
            self.lemma_told(ray@, k as int, hits@);
        }
        RayTrace { hits, cells: k, stopped: false }
    }
}

/// A hit that is due at a limit was waiting and lies no further than it.
pub proof fn lemma_due_origin(waiting: Seq<RayHit>, limit: int, hit: RayHit)
    requires
        due(waiting, limit).contains(hit),
    ensures
        waiting.contains(hit),
        hit.min <= limit,
    decreases waiting.len(),
{
    if waiting.len() > 0 {
        let rest = due(waiting.drop_last(), limit);
        let n = waiting.len() - 1;
        if waiting.last().min <= limit {
            let i = choose|i: int| 0 <= i < rest.push(waiting.last()).len() && rest.push(
                waiting.last(),
            )[i] == hit;
            if i < rest.len() {
                assert(rest[i] == hit);
                lemma_due_origin(waiting.drop_last(), limit, hit);
                let j = choose|j: int| 0 <= j < n && waiting.drop_last()[j] == hit;
                assert(waiting[j] == hit);
            } else {
                assert(waiting[n] == hit);
            }
        } else {
            lemma_due_origin(waiting.drop_last(), limit, hit);
            let j = choose|j: int| 0 <= j < n && waiting.drop_last()[j] == hit;
            assert(waiting[j] == hit);
        }
    }
}

/// A hit that is held back at a limit was waiting and lies further than it.
pub proof fn lemma_held_origin(waiting: Seq<RayHit>, limit: int, hit: RayHit)
    requires
        held(waiting, limit).contains(hit),
    ensures
        waiting.contains(hit),
        hit.min > limit,
    decreases waiting.len(),
{
    if waiting.len() > 0 {
        let rest = held(waiting.drop_last(), limit);
        let n = waiting.len() - 1;
        if waiting.last().min <= limit {
            lemma_held_origin(waiting.drop_last(), limit, hit);
            let j = choose|j: int| 0 <= j < n && waiting.drop_last()[j] == hit;
            assert(waiting[j] == hit);
        } else {
            let i = choose|i: int| 0 <= i < rest.push(waiting.last()).len() && rest.push(
                waiting.last(),
            )[i] == hit;
            if i < rest.len() {
                assert(rest[i] == hit);
                lemma_held_origin(waiting.drop_last(), limit, hit);
                let j = choose|j: int| 0 <= j < n && waiting.drop_last()[j] == hit;
                assert(waiting[j] == hit);
            } else {
                assert(waiting[n] == hit);
            }
        }
    }
}

/// Whether the near ends of a list of hits never decrease.
pub open spec fn ascending(hits: Seq<RayHit>) -> bool {
    forall|i: int, j: int| 0 <= i <= j < hits.len() ==> hits[i].min <= hits[j].min
}

/// In an ascending list, a hit's place lies behind every hit that lies no
/// further and before every hit that lies further.
pub proof fn lemma_slot_splits(sorted: Seq<RayHit>, hit: RayHit)
    requires
        ascending(sorted),
    ensures
        0 <= slot(sorted, hit) <= sorted.len(),
        forall|i: int| 0 <= i < slot(sorted, hit) ==> sorted[i].min <= hit.min,
        forall|i: int| slot(sorted, hit) <= i < sorted.len() ==> sorted[i].min > hit.min,
    decreases sorted.len(),
{
    if sorted.len() > 0 && sorted.last().min > hit.min {
        let front = sorted.drop_last();
        assert forall|i: int, j: int| 0 <= i <= j < front.len() implies front[i].min
            <= front[j].min by {
            assert(sorted[i].min <= sorted[j].min);
        }
        lemma_slot_splits(front, hit);
        assert forall|i: int| 0 <= i < slot(sorted, hit) implies sorted[i].min <= hit.min by {
            assert(front[i].min <= hit.min);
        }
        assert forall|i: int| slot(sorted, hit) <= i < sorted.len() implies sorted[i].min
            > hit.min by {
            if i < front.len() {
                assert(front[i].min > hit.min);
            }
        }
    } else if sorted.len() > 0 {
        assert forall|i: int| 0 <= i < sorted.len() implies sorted[i].min <= hit.min by {
            assert(sorted[i].min <= sorted[sorted.len() - 1].min);
        }
    }
}

/// Ordering a list of hits gives an ascending list of the same hits.
pub proof fn lemma_ordered(hits: Seq<RayHit>)
    ensures
        ascending(ordered(hits)),
        ordered(hits).len() == hits.len(),
        forall|hit: RayHit| #[trigger] ordered(hits).contains(hit) <==> hits.contains(hit),
    decreases hits.len(),
{
    if hits.len() > 0 {
        let front = hits.drop_last();
        let last = hits.last();
        lemma_ordered(front);
        let before = ordered(front);
        lemma_slot_splits(before, last);
        let place = slot(before, last);
        let after = before.insert(place, last);
        assert(after == ordered(hits));
        assert forall|i: int, j: int| 0 <= i <= j < after.len() implies after[i].min
            <= after[j].min by {
            if i < place && j > place {
                assert(before[i].min <= last.min);
                assert(before[j - 1].min > last.min);
            } else if i == place && j > place {
                assert(before[j - 1].min > last.min);
            } else if i < place && j == place {
                assert(before[i].min <= last.min);
            } else if i < place && j < place {
                assert(before[i].min <= before[j].min);
            } else if i > place {
                assert(before[i - 1].min <= before[j - 1].min);
            }
        }
        assert forall|hit: RayHit| #[trigger] after.contains(hit) <==> hits.contains(hit) by {
            if after.contains(hit) {
                let i = choose|i: int| 0 <= i < after.len() && after[i] == hit;
                if i == place {
                    assert(hits[hits.len() - 1] == hit);
                } else {
                    let b = if i < place {
                        i
                    } else {
                        i - 1
                    };
                    assert(before[b] == hit);
                    assert(before.contains(hit));
                    assert(front.contains(hit));
                    let f = choose|f: int| 0 <= f < front.len() && front[f] == hit;
                    assert(hits[f] == hit);
                }
            }
            if hits.contains(hit) {
                let f = choose|f: int| 0 <= f < hits.len() && hits[f] == hit;
                if f == hits.len() - 1 {
                    assert(after[place] == hit);
                } else {
                    assert(front[f] == hit);
                    assert(front.contains(hit));
                    assert(before.contains(hit));
                    let b = choose|b: int| 0 <= b < before.len() && before[b] == hit;
                    if b < place {
                        assert(after[b] == hit);
                    } else {
                        assert(after[b + 1] == hit);
                    }
                }
            }
        }
    }
}

impl RayQuery {
    /// A hit that waits after a list of bodies was looked at either waited
    /// before or is the hit of a body of the list that the filter lets
    /// through.
    pub proof fn lemma_gather_origin(
        self,
        seen: Set<u64>,
        waiting: Seq<RayHit>,
        bodies: Seq<EntityInformation>,
        hit: RayHit,
    )
        requires
            self.gather(seen, waiting, bodies).1.contains(hit),
        ensures
            waiting.contains(hit) || (bodies.contains(hit.entity) && self.accepts(hit.entity)
                && self.meet(hit.entity) == Some(hit)),
        decreases bodies.len(),
    {
        if bodies.len() > 0 {
            let front = bodies.drop_last();
            let before = self.gather(seen, waiting, front);
            let body = bodies.last();
            let n = bodies.len() - 1;
            let found = self.gather(seen, waiting, bodies).1;
            let came_before = before.1.contains(hit);
            if !came_before {
                assert(self.accepts(body) && !before.0.contains(body.entity));
                assert(self.meet(body) is Some);
                let grown = before.1.push(self.meet(body).unwrap());
                let i = choose|i: int| 0 <= i < grown.len() && grown[i] == hit;
                if i < before.1.len() {
                    assert(before.1[i] == hit);
                }
                assert(self.meet(body) == Some(hit));
                assert(hit.entity == body);
                assert(bodies[n] == body);
            } else {
                self.lemma_gather_origin(seen, waiting, front, hit);
                if !waiting.contains(hit) {
                    let j = choose|j: int| 0 <= j < front.len() && front[j] == hit.entity;
                    assert(bodies[j] == hit.entity);
                }
            }
        }
    }
}

impl PhysicWorld {
    /// Every hit that waits when the ray query has looked at cell `k` is the
    /// hit of a body that the filter lets through and that the grid records in
    /// one of the cells looked at so far.
    pub proof fn lemma_gathered_sound(&self, ray: RayQuery, k: int, hit: RayHit) -> (at: int)
        requires
            0 <= k,
            self.gathered(ray, k).1.contains(hit),
        ensures
            0 <= at <= k,
            self.ray_candidates(ray.legs()[at].cell).contains(hit.entity),
            ray.accepts(hit.entity),
            ray.meet(hit.entity) == Some(hit),
        decreases k,
    {
        let bodies = self.ray_candidates(ray.legs()[k].cell);
        if k == 0 {
            ray.lemma_gather_origin(Set::empty(), Seq::empty(), bodies, hit);
            0
        } else {
            let before = self.gathered(ray, k - 1);
            let kept = held(before.1, ray.legs()[k - 1].reach as int);
            ray.lemma_gather_origin(before.0, kept, bodies, hit);
            if kept.contains(hit) {
                lemma_held_origin(before.1, ray.legs()[k - 1].reach as int, hit);
                self.lemma_gathered_sound(ray, k - 1, hit)
            } else {
                k
            }
        }
    }

    /// Every hit reported in the first `n` cells was reported after one of
    /// them: it waited there and lies no further than where the ray leaves
    /// that cell.
    pub proof fn lemma_reported_origin(&self, ray: RayQuery, n: int, i: int) -> (k: int)
        requires
            0 <= i < self.reported(ray, n).len(),
        ensures
            0 <= k < n,
            self.gathered(ray, k).1.contains(self.reported(ray, n)[i]),
            self.reported(ray, n)[i].min <= ray.legs()[k].reach,
        decreases n,
    {
        let before = self.reported(ray, n - 1);
        if i < before.len() {
            self.lemma_reported_origin(ray, n - 1, i)
        } else {
            let hit = self.reported(ray, n)[i];
            let waiting = self.gathered(ray, n - 1).1;
            let limit = ray.legs()[n - 1].reach as int;
            lemma_ordered(due(waiting, limit));
            assert(self.batch(ray, n - 1)[i - before.len()] == hit);
            assert(self.batch(ray, n - 1).contains(hit));
            lemma_due_origin(waiting, limit, hit);
            n - 1
        }
    }

    /// A ray query reports only bodies that the grid records in a cell on
    /// the ray's way, that are not left out by id and that pass the group and
    /// mask test in both directions; and it reports them with the ends of their
    /// stretch of the ray's line, which reaches neither wholly behind the origin
    /// nor wholly beyond the ray's length.
    pub proof fn lemma_ray_hits_sound(&self, ray: RayQuery, n: int, i: int) -> (at: int)
        requires
            0 <= i < self.reported(ray, n).len(),
        ensures
            0 <= at < n,
            self.ray_candidates(ray.legs()[at].cell).contains(self.reported(ray, n)[i].entity),
            !ray.not.contains(self.reported(ray, n)[i].entity.entity),
            self.reported(ray, n)[i].entity.group & ray.mask != 0,
            self.reported(ray, n)[i].entity.mask & ray.group != 0,
            ray.meet(self.reported(ray, n)[i].entity) == Some(self.reported(ray, n)[i]),
            self.reported(ray, n)[i].max >= 0,
            self.reported(ray, n)[i].min <= ray.length,
    {
        let k = self.lemma_reported_origin(ray, n, i);
        self.lemma_gathered_sound(ray, k, self.reported(ray, n)[i])
    }

    /// Whether no body is found late: the hits that wait when a cell has
    /// been looked at have their near ends no nearer than where the ray left
    /// the cell before. Hits that waited already lie further than that; the
    /// condition is one on the hits that are found in the cell.
    pub open spec fn timely(&self, ray: RayQuery) -> bool {
        forall|k: int, i: int|
            1 <= k < ray.legs().len() && 0 <= i < self.gathered(ray, k).1.len() ==> (
            #[trigger] self.gathered(ray, k).1[i]).min >= ray.legs()[k - 1].reach
    }

    /// Where no body is found late, a ray query reports its hits in the
    /// order of their near ends: no hit lies nearer than one reported before
    /// it. A body whose shape reaches back, by the width of a rounding step,
    /// into a cell that the ray has already left can be found late, and is
    /// then reported behind hits that lie further.
    pub proof fn lemma_ray_hits_ascending(&self, ray: RayQuery, n: int)
        requires
            self.timely(ray),
            n <= ray.legs().len(),
        ensures
            ascending(self.reported(ray, n)),
        decreases n,
    {
        if n > 0 {
            self.lemma_ray_hits_ascending(ray, n - 1);
            let before = self.reported(ray, n - 1);
            let waiting = self.gathered(ray, n - 1).1;
            let limit = ray.legs()[n - 1].reach as int;
            let batch = self.batch(ray, n - 1);
            let all = self.reported(ray, n);
            lemma_ordered(due(waiting, limit));
            assert forall|i: int, j: int| 0 <= i <= j < all.len() implies all[i].min
                <= all[j].min by {
                if j < before.len() {
                    assert(before[i].min <= before[j].min);
                } else if i >= before.len() {
                    assert(batch[i - before.len()].min <= batch[j - before.len()].min);
                } else {
                    let a = self.lemma_reported_origin(ray, n - 1, i);
                    let late = batch[j - before.len()];
                    assert(batch.contains(late));
                    lemma_due_origin(waiting, limit, late);
                    let w = choose|w: int| 0 <= w < waiting.len() && waiting[w] == late;
                    ray.lemma_reaches();
                    assert(ray.legs()[a].reach <= ray.legs()[n - 2].reach);
                    assert(self.gathered(ray, n - 1).1[w].min >= ray.legs()[n - 2].reach);
                }
            }
        }
    }
}

/// How many of the hits are hits of the body with the given id.
pub open spec fn times(hits: Seq<RayHit>, id: u64) -> nat
    decreases hits.len(),
{
    if hits.len() == 0 {
        0
    } else {
        times(hits.drop_last(), id) + if hits.last().entity.entity == id {
            1nat
        } else {
            0nat
        }
    }
}

/// Two lists put together hold a body's hits as often as both lists do.
pub proof fn lemma_times_concat(first: Seq<RayHit>, second: Seq<RayHit>, id: u64)
    ensures
        times(first + second, id) == times(first, id) + times(second, id),
    decreases second.len(),
{
    if second.len() == 0 {
        assert(first + second =~= first);
    } else {
        assert((first + second).drop_last() =~= first + second.drop_last());
        lemma_times_concat(first, second.drop_last(), id);
    }
}

/// The hits that are due and the hits that are held back are together
/// the hits that waited.
pub proof fn lemma_times_split(waiting: Seq<RayHit>, limit: int, id: u64)
    ensures
        times(due(waiting, limit), id) + times(held(waiting, limit), id) == times(waiting, id),
    decreases waiting.len(),
{
    if waiting.len() > 0 {
        lemma_times_split(waiting.drop_last(), limit, id);
        if waiting.last().min <= limit {
            assert(due(waiting, limit).drop_last() =~= due(waiting.drop_last(), limit));
        } else {
            assert(held(waiting, limit).drop_last() =~= held(waiting.drop_last(), limit));
        }
    }
}

/// Ordering hits neither adds nor drops a hit of any body.
pub proof fn lemma_times_ordered(hits: Seq<RayHit>, id: u64)
    ensures
        times(ordered(hits), id) == times(hits, id),
    decreases hits.len(),
{
    if hits.len() > 0 {
        let before = ordered(hits.drop_last());
        let last = hits.last();
        let place = slot(before, last);
        lemma_times_ordered(hits.drop_last(), id);
        lemma_slot_in_range(before, last);
        let head = before.take(place);
        let tail = before.skip(place);
        assert(before =~= head + tail);
        assert(before.insert(place, last) =~= (head + seq![last]) + tail);
        lemma_times_concat(head, tail, id);
        lemma_times_concat(head + seq![last], tail, id);
        lemma_times_concat(head, seq![last], id);
        assert(seq![last].drop_last() =~= Seq::<RayHit>::empty());
        assert(times(Seq::<RayHit>::empty(), id) == 0);
        assert(seq![last].last() == last);
        assert(times(seq![last], id) == if last.entity.entity == id {
            1nat
        } else {
            0nat
        });
    }
}

/// A list that holds hits of one body at two places holds at least two
/// hits of that body.
pub proof fn lemma_times_twice(hits: Seq<RayHit>, i: int, j: int)
    requires
        0 <= i < j < hits.len(),
        hits[i].entity.entity == hits[j].entity.entity,
    ensures
        times(hits, hits[i].entity.entity) >= 2,
    decreases hits.len(),
{
    let id = hits[i].entity.entity;
    let front = hits.drop_last();
    if j == hits.len() - 1 {
        lemma_times_found(front, i);
    } else {
        lemma_times_twice(front, i, j);
    }
}

/// A list that holds a hit of a body holds at least one hit of that body.
pub proof fn lemma_times_found(hits: Seq<RayHit>, i: int)
    requires
        0 <= i < hits.len(),
    ensures
        times(hits, hits[i].entity.entity) >= 1,
    decreases hits.len(),
{
    if i < hits.len() - 1 {
        lemma_times_found(hits.drop_last(), i);
    }
}

impl RayQuery {
    /// Looking at a list of bodies forgets no id that was seen, adds at
    /// most one hit of any body, and adds none of a body that was seen before;
    /// the body of a hit that was added is seen afterwards.
    pub proof fn lemma_gather_once(
        self,
        seen: Set<u64>,
        waiting: Seq<RayHit>,
        bodies: Seq<EntityInformation>,
        id: u64,
    )
        ensures
            seen.contains(id) ==> self.gather(seen, waiting, bodies).0.contains(id),
            times(waiting, id) <= times(self.gather(seen, waiting, bodies).1, id) <= times(
                waiting,
                id,
            ) + 1,
            times(self.gather(seen, waiting, bodies).1, id) > times(waiting, id) ==> !seen.contains(
                id,
            ) && self.gather(seen, waiting, bodies).0.contains(id),
        decreases bodies.len(),
    {
        if bodies.len() > 0 {
            let before = self.gather(seen, waiting, bodies.drop_last());
            let body = bodies.last();
            self.lemma_gather_once(seen, waiting, bodies.drop_last(), id);
            if self.accepts(body) && !before.0.contains(body.entity) {
                match self.meet(body) {
                    Some(hit) => {
                        assert(before.1.push(hit).drop_last() =~= before.1);
                    },
                    None => {},
                }
            }
        }
    }
}

impl PhysicWorld {
    /// While a ray query is under way, the hits reported and the hits
    /// waiting hold at most one hit of any body, and the body of each is
    /// marked as seen.
    pub proof fn lemma_gathered_once(&self, ray: RayQuery, k: int, id: u64)
        requires
            0 <= k,
        ensures
            times(self.reported(ray, k), id) + times(self.gathered(ray, k).1, id) <= 1,
            times(self.reported(ray, k), id) + times(self.gathered(ray, k).1, id) >= 1
                ==> self.gathered(ray, k).0.contains(id),
        decreases k,
    {
        let bodies = self.ray_candidates(ray.legs()[k].cell);
        if k == 0 {
            ray.lemma_gather_once(Set::empty(), Seq::empty(), bodies, id);
            assert(self.reported(ray, 0) =~= Seq::<RayHit>::empty());
        } else {
            self.lemma_gathered_once(ray, k - 1, id);
            let before = self.gathered(ray, k - 1);
            let limit = ray.legs()[k - 1].reach as int;
            let kept = held(before.1, limit);
            lemma_times_split(before.1, limit, id);
            lemma_times_ordered(due(before.1, limit), id);
            lemma_times_concat(self.reported(ray, k - 1), self.batch(ray, k - 1), id);
            ray.lemma_gather_once(before.0, kept, bodies, id);
        }
    }

    /// A ray query reports no body twice: two hits that it reports are
    /// hits of bodies with different ids.
    pub proof fn lemma_ray_hits_once(&self, ray: RayQuery, n: int, i: int, j: int)
        requires
            0 <= i < j < self.reported(ray, n).len(),
        ensures
            self.reported(ray, n)[i].entity.entity != self.reported(ray, n)[j].entity.entity,
    {
        let id = self.reported(ray, n)[i].entity.entity;
        assert(n >= 1);
        self.lemma_gathered_once(ray, n - 1, id);
        let waiting = self.gathered(ray, n - 1).1;
        let limit = ray.legs()[n - 1].reach as int;
        lemma_times_split(waiting, limit, id);
        lemma_times_ordered(due(waiting, limit), id);
        lemma_times_concat(self.reported(ray, n - 1), self.batch(ray, n - 1), id);
        if self.reported(ray, n)[j].entity.entity == id {
            lemma_times_twice(self.reported(ray, n), i, j);
        }
    }
}

impl PhysicWorld {
    /// What a ray query has reported after some cells is the beginning of
    /// what it has reported after more cells.
    pub proof fn lemma_reported_grows(&self, ray: RayQuery, n: int, m: int)
        requires
            n <= m,
        ensures
            self.reported(ray, n).len() <= self.reported(ray, m).len(),
            self.reported(ray, m).take(self.reported(ray, n).len() as int) == self.reported(ray, n),
        decreases m - n,
    {
        let short = self.reported(ray, n);
        if n == m {
            assert(short.take(short.len() as int) =~= short);
        } else if m <= 0 {
            assert(short.take(short.len() as int) =~= short);
        } else {
            self.lemma_reported_grows(ray, n, m - 1);
            let less = self.reported(ray, m - 1);
            assert(self.reported(ray, m).take(short.len() as int) =~= less.take(short.len() as int));
        }
    }
}

impl PhysicWorld {
    /// The first hits of what a ray query reports are hits of bodies that
    /// the query's filter lets through, each with the ends of its stretch of
    /// the ray's line, and no two of them are hits of one body. Where no body
    /// is found late, they come in the order of their near ends.
    pub proof fn lemma_told(&self, ray: RayQuery, n: int, told: Seq<RayHit>)
        requires
            told.len() <= self.reported(ray, n).len(),
            told == self.reported(ray, n).take(told.len() as int),
        ensures
            forall|i: int|
                0 <= i < told.len() ==> ray.accepts((#[trigger] told[i]).entity) && ray.meet(
                    told[i].entity,
                ) == Some(told[i]),
            forall|i: int, j: int|
                0 <= i < j < told.len() ==> (#[trigger] told[i]).entity.entity != (
                #[trigger] told[j]).entity.entity,
            self.timely(ray) && n <= ray.legs().len() ==> ascending(told),
    {
        let all = self.reported(ray, n);
        if self.timely(ray) && n <= ray.legs().len() {
            self.lemma_ray_hits_ascending(ray, n);
            assert forall|i: int, j: int| 0 <= i <= j < told.len() implies told[i].min
                <= told[j].min by {
                assert(told[i] == all[i]);
                assert(told[j] == all[j]);
            }
        }
        assert forall|i: int| 0 <= i < told.len() implies ray.accepts((#[trigger] told[i]).entity)
            && ray.meet(told[i].entity) == Some(told[i]) by {
            assert(told[i] == all[i]);
            self.lemma_ray_hits_sound(ray, n, i);
        }
        assert forall|i: int, j: int| 0 <= i < j < told.len() implies (
        #[trigger] told[i]).entity.entity != (#[trigger] told[j]).entity.entity by {
            assert(told[i] == all[i]);
            assert(told[j] == all[j]);
            self.lemma_ray_hits_once(ray, n, i, j);
        }
    }
}

} // verus!
