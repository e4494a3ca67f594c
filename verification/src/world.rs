//! The spatial index: two maps from grid cells to the bodies recorded there,
//! one for bodies that never move ("inert") and one for bodies that do
//! ("movable"), and the shape query over them.
//!
//! A body is recorded in every cell that its shape covers and in no other, so
//! two bodies whose shapes overlap always meet in some cell.

use vstd::prelude::*;
use fnv::FnvHashMap;
use crate::collision::contact;
use crate::collision::lemma_contact_shares_cell;
use crate::collision::shared_cell;
use crate::entity::EntityInformation;
use crate::entity::ShapeCast;
use crate::entity::ShapeQuery;
use crate::entity::ShapeHit;
use crate::geometry::Cell;

verus! {

/// fnv's `FnvHasher`, the hasher of the grid's maps. Nothing is claimed of it.
#[verifier::external_type_specification]
#[verifier::external_body]
pub struct ExFnvHasher(fnv::FnvHasher);

/// std's `BuildHasherDefault`, through which a map makes its hashers.
/// Nothing is claimed of it.
#[verifier::external_type_specification]
#[verifier::external_body]
#[verifier::reject_recursive_types(H)]
pub struct ExBuildHasherDefault<H>(std::hash::BuildHasherDefault<H>);

/// Looks a key up with `HashMap::get` in a map that hashes with fnv's
/// `FnvHasher`. Not proved: that the map, hashed that way, answers as a map
/// does, with the value stored under the key or with nothing.
#[verifier::external_body]
fn fnv_get<'a, V>(map: &'a FnvHashMap<u64, V>, key: u64) -> (value: Option<&'a V>)
    ensures
        match value {
            Some(v) => map@.contains_key(key) && map@[key] == *v,
            None => !map@.contains_key(key),
        },
{
    map.get(&key)
}

/// Takes a key out with `HashMap::remove` from a map that hashes with fnv's
/// `FnvHasher`. Not proved: that exactly this key leaves the map, and that
/// the value stored under it, if any, is handed back.
#[verifier::external_body]
fn fnv_remove<V>(map: &mut FnvHashMap<u64, V>, key: u64) -> (value: Option<V>)
    ensures
        final(map)@ == old(map)@.remove(key),
        match value {
            Some(v) => old(map)@.contains_key(key) && old(map)@[key] == v,
            None => !old(map)@.contains_key(key),
        },
{
    map.remove(&key)
}

/// Stores a value with `HashMap::insert` in a map that hashes with fnv's
/// `FnvHasher`. Not proved: that afterwards the key holds the value and
/// every other key holds what it held.
#[verifier::external_body]
fn fnv_insert<V>(map: &mut FnvHashMap<u64, V>, key: u64, value: V)
    ensures
        final(map)@ == old(map)@.insert(key, value),
{
    map.insert(key, value);
}

/// The number under which a cell is filed: column and row side by side.
pub open spec fn key_of(cell: Cell) -> u64 {
    ((cell.x + 0x8000_0000) * 0x1_0000_0000 + (cell.y + 0x8000_0000)) as u64
}

/// The number under which a cell is filed. No two cells share one.
pub fn cell_key(cell: Cell) -> (key: u64)
    ensures
        key == key_of(cell),
{
    let column: u64 = (cell.x as i64 + 0x8000_0000) as u64;
    let row: u64 = (cell.y as i64 + 0x8000_0000) as u64;
    column * 0x1_0000_0000 + row
}

/// Cells filed under the same number are the same cell.
pub proof fn lemma_key_of_injective(a: Cell, b: Cell)
    requires
        key_of(a) == key_of(b),
    ensures
        a == b,
{
}

/// The bodies recorded in a cell of one of the two maps, in the order in
/// which they were inserted.
pub open spec fn bucket(map: Map<u64, Vec<EntityInformation>>, cell: Cell) -> Seq<
    EntityInformation,
> {
    if map.contains_key(key_of(cell)) {
        map[key_of(cell)]@
    } else {
        Seq::empty()
    }
}

/// The bodies of a list whose shape covers a cell, in the order of the list.
pub open spec fn covering(bodies: Seq<EntityInformation>, cell: Cell) -> Seq<EntityInformation>
    decreases bodies.len(),
{
    if bodies.len() == 0 {
        Seq::empty()
    } else {
        let before = covering(bodies.drop_last(), cell);
        if bodies.last().shape.covers(bodies.last().pos, cell) {
            before.push(bodies.last())
        } else {
            before
        }
    }
}

/// Whether every record of a map stands in exactly the cells that its shape
/// covers.
pub open spec fn placed(map: Map<u64, Vec<EntityInformation>>) -> bool {
    &&& forall|cell: Cell, body: EntityInformation| #[trigger]
        bucket(map, cell).contains(body) ==> body.shape.covers(body.pos, cell)
    &&& forall|from: Cell, to: Cell, body: EntityInformation|
        #![trigger bucket(map, from).contains(body), body.shape.covers(body.pos, to)]
        bucket(map, from).contains(body) && body.shape.covers(body.pos, to) ==> bucket(
            map,
            to,
        ).contains(body)
}

/// The grid. It holds copies of the bodies: a record stays as it was
/// inserted until the movable map is cleared and filled again.
pub struct PhysicWorld {
    inert: FnvHashMap<u64, Vec<EntityInformation>>,
    movable: FnvHashMap<u64, Vec<EntityInformation>>,
}

/// Records a body in every cell of a map that its shape covers.
fn record(map: &mut FnvHashMap<u64, Vec<EntityInformation>>, info: EntityInformation)
    ensures
        forall|cell: Cell| #[trigger]
            bucket(final(map)@, cell) == if info.shape.covers(info.pos, cell) {
                bucket(old(map)@, cell).push(info)
            } else {
                bucket(old(map)@, cell)
            },
{
    let cells = info.shape.cells(info.pos);
    let ghost before = map@;
    let mut i: usize = 0;
    while i < cells.len()
        invariant
            i <= cells.len(),
            cells@.no_duplicates(),
            forall|c: Cell| #[trigger] cells@.contains(c) <==> info.shape.covers(info.pos, c),
            forall|cell: Cell| #[trigger]
                bucket(map@, cell) == if cells@.take(i as int).contains(cell) {
                    bucket(before, cell).push(info)
                } else {
                    bucket(before, cell)
                },
        decreases cells.len() - i,
    {
        let here = cells[i];
        let key = cell_key(here);
        let ghost earlier = map@;
        proof {
            if cells@.take(i as int).contains(here) {
                let j = choose|j: int| 0 <= j < i && cells@.take(i as int)[j] == here;
                assert(cells@[j] == cells@[i as int]);
            }
            assert(bucket(earlier, here) == bucket(before, here));
        }
        let mut bodies = match fnv_remove(map, key) {
            Some(bodies) => bodies,
            None => Vec::new(),
        };
        bodies.push(info);
        fnv_insert(map, key, bodies);
        proof {
            assert forall|cell: Cell| #[trigger]
                bucket(map@, cell) == if cells@.take(i + 1).contains(cell) {
                    bucket(before, cell).push(info)
                } else {
                    bucket(before, cell)
                } by {
                let upto = cells@.take(i as int);
                assert(cells@.take(i + 1) =~= upto + seq![here]);
                lemma_contains_concat(upto, seq![here], cell);
                if cell == here {
                    assert(seq![here][0] == cell);
                } else {
                    if key_of(cell) == key {
                        lemma_key_of_injective(cell, here);
                    }
                    assert(bucket(map@, cell) == bucket(earlier, cell));
                }
            }
        }
        i += 1;
    }
    proof {
        assert(cells@.take(cells.len() as int) =~= cells@);
    }
}

impl PhysicWorld {
    /// The inert bodies recorded in a cell, in the order of their insertion.
    pub closed spec fn inert_at(&self, cell: Cell) -> Seq<EntityInformation> {
        bucket(self.inert@, cell)
    }

    /// The movable bodies recorded in a cell, in the order of their insertion.
    pub closed spec fn movable_at(&self, cell: Cell) -> Seq<EntityInformation> {
        bucket(self.movable@, cell)
    }

    /// The bodies that a shape query scans in a cell: the inert ones, then
    /// the movable ones.
    pub open spec fn candidates_at(&self, cell: Cell) -> Seq<EntityInformation> {
        self.inert_at(cell) + self.movable_at(cell)
    }

    /// Whether the grid records the body in some cell.
    pub open spec fn holds(&self, body: EntityInformation) -> bool {
        exists|cell: Cell| #[trigger] self.candidates_at(cell).contains(body)
    }

    /// The grid's invariant: in either map a record stands in exactly the
    /// cells that its shape covers.
    pub closed spec fn wf(&self) -> bool {
        placed(self.inert@) && placed(self.movable@)
    }

    /// What the invariant says of the two maps.
    pub proof fn lemma_placement(&self)
        requires
            self.wf(),
        ensures
            forall|cell: Cell, body: EntityInformation| #[trigger]
                self.inert_at(cell).contains(body) ==> body.shape.covers(body.pos, cell),
            forall|cell: Cell, body: EntityInformation| #[trigger]
                self.movable_at(cell).contains(body) ==> body.shape.covers(body.pos, cell),
            forall|from: Cell, to: Cell, body: EntityInformation|
                #![trigger self.inert_at(from).contains(body), body.shape.covers(body.pos, to)]
                self.inert_at(from).contains(body) && body.shape.covers(body.pos, to)
                    ==> self.inert_at(to).contains(body),
            forall|from: Cell, to: Cell, body: EntityInformation|
                #![trigger self.movable_at(from).contains(body), body.shape.covers(body.pos, to)]
                self.movable_at(from).contains(body) && body.shape.covers(body.pos, to)
                    ==> self.movable_at(to).contains(body),
    {
    }

    /// An empty grid.
    pub fn new() -> (world: PhysicWorld)
        ensures
            world.wf(),
            forall|cell: Cell| #[trigger] world.inert_at(cell) == Seq::<EntityInformation>::empty(),
            forall|cell: Cell| #[trigger]
                world.movable_at(cell) == Seq::<EntityInformation>::empty(),
    {
        PhysicWorld { inert: FnvHashMap::default(), movable: FnvHashMap::default() }
    }

    /// The inert bodies recorded in a cell, if there are any.
    pub fn inert_in(&self, cell: Cell) -> (bodies: Option<&Vec<EntityInformation>>)
        ensures
            match bodies {
                Some(bodies) => bodies@ == self.inert_at(cell),
                None => self.inert_at(cell) == Seq::<EntityInformation>::empty(),
            },
    {
        fnv_get(&self.inert, cell_key(cell))
    }

    /// The movable bodies recorded in a cell, if there are any.
    pub fn movable_in(&self, cell: Cell) -> (bodies: Option<&Vec<EntityInformation>>)
        ensures
            match bodies {
                Some(bodies) => bodies@ == self.movable_at(cell),
                None => self.movable_at(cell) == Seq::<EntityInformation>::empty(),
            },
    {
        fnv_get(&self.movable, cell_key(cell))
    }

    /// Forgets every movable body. Called once per tick, before the bodies
    /// that moved are inserted again.
    pub fn clear_dynamic(&mut self)
        requires
            old(self).wf(),
        ensures
            final(self).wf(),
            forall|cell: Cell| #[trigger]
                final(self).movable_at(cell) == Seq::<EntityInformation>::empty(),
            forall|cell: Cell| #[trigger] final(self).inert_at(cell) == old(self).inert_at(cell),
    {
        self.movable.clear();
    }

    /// Records a movable body in every cell that its shape covers, behind
    /// the bodies already recorded there.
    pub fn insert_dynamic(&mut self, info: EntityInformation)
        requires
            old(self).wf(),
        ensures
            final(self).wf(),
            forall|cell: Cell| #[trigger]
                final(self).movable_at(cell) == if info.shape.covers(info.pos, cell) {
                    old(self).movable_at(cell).push(info)
                } else {
                    old(self).movable_at(cell)
                },
            forall|cell: Cell| #[trigger] final(self).inert_at(cell) == old(self).inert_at(cell),
    {
        let ghost before = self.movable@;
        record(&mut self.movable, info);
        proof {
            lemma_record_keeps_placement(before, self.movable@, info);
        }
    }

    /// Records an inert body in every cell that its shape covers, behind
    /// the bodies already recorded there.
    pub fn insert_static(&mut self, info: EntityInformation)
        requires
            old(self).wf(),
        ensures
            final(self).wf(),
            forall|cell: Cell| #[trigger]
                final(self).inert_at(cell) == if info.shape.covers(info.pos, cell) {
                    old(self).inert_at(cell).push(info)
                } else {
                    old(self).inert_at(cell)
                },
            forall|cell: Cell| #[trigger]
                final(self).movable_at(cell) == old(self).movable_at(cell),
    {
        let ghost before = self.inert@;
        record(&mut self.inert, info);
        proof {
            lemma_record_keeps_placement(before, self.inert@, info);
        }
    }

    /// Empties the grid and records the given bodies anew: each cell then
    /// holds, in the order given, exactly the bodies that cover it.
    pub fn fill(&mut self, dynamics: &Vec<EntityInformation>, statics: &Vec<EntityInformation>)
        ensures
            final(self).wf(),
            forall|cell: Cell| #[trigger]
                final(self).movable_at(cell) == covering(dynamics@, cell),
            forall|cell: Cell| #[trigger] final(self).inert_at(cell) == covering(statics@, cell),
    {
        self.inert.clear();
        self.movable.clear();
        let mut i: usize = 0;
        while i < dynamics.len()
            invariant
                i <= dynamics.len(),
                self.wf(),
                forall|cell: Cell| #[trigger]
                    self.movable_at(cell) == covering(dynamics@.take(i as int), cell),
                forall|cell: Cell| #[trigger]
                    self.inert_at(cell) == Seq::<EntityInformation>::empty(),
            decreases dynamics.len() - i,
        {
            proof {
                assert(dynamics@.take(i + 1).drop_last() =~= dynamics@.take(i as int));
            }
            self.insert_dynamic(dynamics[i]);
            i += 1;
        }
        let mut j: usize = 0;
        while j < statics.len()
            invariant
                j <= statics.len(),
                self.wf(),
                forall|cell: Cell| #[trigger]
                    self.movable_at(cell) == covering(dynamics@.take(dynamics.len() as int), cell),
                forall|cell: Cell| #[trigger]
                    self.inert_at(cell) == covering(statics@.take(j as int), cell),
            decreases statics.len() - j,
        {
            proof {
                assert(statics@.take(j + 1).drop_last() =~= statics@.take(j as int));
            }
            self.insert_static(statics[j]);
            j += 1;
        }
        proof {
            assert(dynamics@.take(dynamics.len() as int) =~= dynamics@);
            assert(statics@.take(statics.len() as int) =~= statics@);
        }
    }

    /// What a shape query reports over a list of cells: cell by cell, the
    /// hits among the bodies recorded there.
    pub open spec fn hits_over(&self, cast: ShapeQuery, cells: Seq<Cell>) -> Seq<ShapeHit>
        decreases cells.len(),
    {
        if cells.len() == 0 {
            Seq::empty()
        } else {
            self.hits_over(cast, cells.drop_last()) + cast.hits_among(
                self.candidates_at(cells.last()),
            )
        }
    }

    /// What a shape query reports: for each cell that the query's shape
    /// covers, the hits among the inert and then the movable bodies of that
    /// cell. A body recorded in several of these cells is reported once for
    /// each.
    pub open spec fn shape_hits(&self, cast: ShapeQuery) -> Seq<ShapeHit> {
        self.hits_over(cast, cast.shape.cells_seq(cast.pos))
    }

    /// The shape query: every body that the query's filter lets through and
    /// whose shape overlaps the query's shape, with its contact, once for each
    /// cell that the body shares with the query's shape.
    pub fn apply_on_shape(&self, shape: &ShapeCast) -> (found: Vec<ShapeHit>)
        ensures
            found@ == self.shape_hits(shape@),
            forall|i: int|
                0 <= i < found@.len() ==> self.holds((#[trigger] found@[i]).entity)
                    && shape@.accepts(found@[i].entity) && contact(
                    shape.pos,
                    shape.shape,
                    found@[i].entity.pos,
                    found@[i].entity.shape,
                ) == Some(found@[i].collision),
    {
        let cells = shape.shape.cells(shape.pos);
        let mut found: Vec<ShapeHit> = Vec::new();
        let mut i: usize = 0;
        while i < cells.len()
            invariant
                i <= cells.len(),
                found@ == self.hits_over(shape@, cells@.take(i as int)),
            decreases cells.len() - i,
        {
            let key = cell_key(cells[i]);
            let ghost cell = cells@[i as int];
            let ghost start = found@;
            match fnv_get(&self.inert, key) {
                Some(bodies) => {
                    shape.collect(bodies, &mut found);
                },
                None => {},
            }
            proof {
                assert(found@ =~= start + shape@.hits_among(self.inert_at(cell)));
            }
            match fnv_get(&self.movable, key) {
                Some(bodies) => {
                    shape.collect(bodies, &mut found);
                },
                None => {},
            }
            proof {
                shape@.lemma_hits_among_concat(self.inert_at(cell), self.movable_at(cell));
                assert(cells@.take(i + 1).drop_last() =~= cells@.take(i as int));
                assert(found@ =~= start + shape@.hits_among(self.candidates_at(cell)));
            }
            i += 1;
        }
        proof {
            assert(cells@.take(cells.len() as int) =~= cells@);
            assert forall|i: int| 0 <= i < found@.len() implies self.holds(
                (#[trigger] found@[i]).entity,
            ) && shape@.accepts(found@[i].entity) && contact(
                shape.pos,
                shape.shape,
                found@[i].entity.pos,
                found@[i].entity.shape,
            ) == Some(found@[i].collision) by {
                self.lemma_shape_hits_sound(shape@, i);
            }
        }
        found
    }

    /// Whether any body that the query's filter lets through overlaps the
    /// query's shape.
    pub fn touches(&self, shape: &ShapeCast) -> (any: bool)
        ensures
            any == (self.shape_hits(shape@).len() > 0),
    {
        self.apply_on_shape(shape).len() > 0
    }

    /// Every hit over a list of cells is the hit of a body recorded in one
    /// of them.
    pub proof fn lemma_hits_over_sound(&self, cast: ShapeQuery, cells: Seq<Cell>, i: int) -> (k: int)
        requires
            0 <= i < self.hits_over(cast, cells).len(),
        ensures
            0 <= k < cells.len(),
            self.candidates_at(cells[k]).contains(self.hits_over(cast, cells)[i].entity),
            cast.hit(self.hits_over(cast, cells)[i].entity) == Some(self.hits_over(cast, cells)[i]),
        decreases cells.len(),
    {
        let before = self.hits_over(cast, cells.drop_last());
        if i < before.len() {
            self.lemma_hits_over_sound(cast, cells.drop_last(), i)
        } else {
            cast.lemma_hits_among_sound(self.candidates_at(cells.last()), i - before.len());
            cells.len() - 1
        }
    }

    /// Every hit among the bodies of a listed cell is among the hits over
    /// the list.
    pub proof fn lemma_hits_over_complete(
        &self,
        cast: ShapeQuery,
        cells: Seq<Cell>,
        k: int,
        j: int,
    ) -> (i: int)
        requires
            0 <= k < cells.len(),
            0 <= j < cast.hits_among(self.candidates_at(cells[k])).len(),
        ensures
            0 <= i < self.hits_over(cast, cells).len(),
            self.hits_over(cast, cells)[i] == cast.hits_among(self.candidates_at(cells[k]))[j],
        decreases cells.len(),
    {
        let before = self.hits_over(cast, cells.drop_last());
        if k == cells.len() - 1 {
            before.len() + j
        } else {
            self.lemma_hits_over_complete(cast, cells.drop_last(), k, j)
        }
    }

    /// A shape query reports only bodies that the grid records in a cell
    /// covered by the query's shape, that are not left out by id, that pass
    /// the group and mask test in both directions, and whose shape overlaps
    /// the query's; and it reports them with that contact.
    pub proof fn lemma_shape_hits_sound(&self, cast: ShapeQuery, i: int)
        requires
            0 <= i < self.shape_hits(cast).len(),
        ensures
            self.holds(self.shape_hits(cast)[i].entity),
            !cast.not.contains(self.shape_hits(cast)[i].entity.entity),
            self.shape_hits(cast)[i].entity.group & cast.mask != 0,
            self.shape_hits(cast)[i].entity.mask & cast.group != 0,
            contact(
                cast.pos,
                cast.shape,
                self.shape_hits(cast)[i].entity.pos,
                self.shape_hits(cast)[i].entity.shape,
            ) == Some(self.shape_hits(cast)[i].collision),
    {
        let cells = cast.shape.cells_seq(cast.pos);
        let k = self.lemma_hits_over_sound(cast, cells, i);
        assert(self.candidates_at(cells[k]).contains(self.shape_hits(cast)[i].entity));
    }

    /// A shape query misses nothing: a body that the grid records, that the
    /// query's filter lets through and whose shape overlaps the query's shape
    /// is reported at least once. The query's shape has to cover some cell:
    /// a shape without width or height that lies on a grid line covers none and
    /// finds nothing.
    pub proof fn lemma_shape_hits_complete(&self, cast: ShapeQuery, body: EntityInformation) -> (i:
        int)
        requires
            self.wf(),
            self.holds(body),
            cast.accepts(body),
            contact(cast.pos, cast.shape, body.pos, body.shape) is Some,
            cast.shape.cells_seq(cast.pos).len() > 0,
        ensures
            0 <= i < self.shape_hits(cast).len(),
            self.shape_hits(cast)[i].entity == body,
            Some(self.shape_hits(cast)[i].collision) == contact(
                cast.pos,
                cast.shape,
                body.pos,
                body.shape,
            ),
    {
        let cells = cast.shape.cells_seq(cast.pos);
        self.lemma_placement();
        let at = choose|cell: Cell| #[trigger] self.candidates_at(cell).contains(body);
        lemma_contains_concat(self.inert_at(at), self.movable_at(at), body);
        assert(body.shape.covers(body.pos, at));
        cast.shape.lemma_extent(cast.pos);
        body.shape.lemma_extent(body.pos);
        cast.shape.lemma_cells_seq(cast.pos);
        body.shape.lemma_cells_seq(body.pos);
        assert(cast.shape.columns(cast.pos) > 0 && cast.shape.rows(cast.pos) > 0) by (nonlinear_arith)
            requires
                cast.shape.columns(cast.pos) * cast.shape.rows(cast.pos) > 0,
                cast.shape.columns(cast.pos) >= 0,
                cast.shape.rows(cast.pos) >= 0,
        ;
        assert(body.shape.cells_seq(body.pos).contains(at));
        assert(body.shape.columns(body.pos) > 0 && body.shape.rows(body.pos) > 0) by (nonlinear_arith)
            requires
                body.shape.columns(body.pos) * body.shape.rows(body.pos) > 0,
                body.shape.columns(body.pos) >= 0,
                body.shape.rows(body.pos) >= 0,
        ;
        lemma_contact_shares_cell(cast.pos, cast.shape, body.pos, body.shape);
        let meet = shared_cell(cast.pos, cast.shape, body.pos, body.shape);
        assert(cells.contains(meet));
        let k = choose|k: int| 0 <= k < cells.len() && cells[k] == meet;
        if self.inert_at(at).contains(body) {
            assert(self.inert_at(meet).contains(body));
        } else {
            assert(self.movable_at(at).contains(body));
            assert(self.movable_at(meet).contains(body));
        }
        lemma_contains_concat(self.inert_at(meet), self.movable_at(meet), body);
        let bodies = self.candidates_at(meet);
        let n = choose|n: int| 0 <= n < bodies.len() && bodies[n] == body;
        let j = cast.lemma_hits_among_complete(bodies, n);
        self.lemma_hits_over_complete(cast, cells, k, j)
    }
}

/// A value is in two lists put together exactly when it is in one of them.
pub proof fn lemma_contains_concat<T>(first: Seq<T>, second: Seq<T>, value: T)
    ensures
        (first + second).contains(value) <==> first.contains(value) || second.contains(value),
{
    let both = first + second;
    if first.contains(value) {
        let i = choose|i: int| 0 <= i < first.len() && first[i] == value;
        assert(both[i] == value);
    }
    if second.contains(value) {
        let i = choose|i: int| 0 <= i < second.len() && second[i] == value;
        assert(both[first.len() + i] == value);
    }
    if both.contains(value) {
        let i = choose|i: int| 0 <= i < both.len() && both[i] == value;
        if i < first.len() {
            assert(first[i] == value);
        } else {
            assert(second[i - first.len()] == value);
        }
    }
}

/// Recording a body in the cells that it covers keeps every record in
/// exactly the cells that its shape covers.
proof fn lemma_record_keeps_placement(
    before: Map<u64, Vec<EntityInformation>>,
    after: Map<u64, Vec<EntityInformation>>,
    info: EntityInformation,
)
    requires
        placed(before),
        forall|cell: Cell| #[trigger]
            bucket(after, cell) == if info.shape.covers(info.pos, cell) {
                bucket(before, cell).push(info)
            } else {
                bucket(before, cell)
            },
    ensures
        placed(after),
{
    assert forall|cell: Cell, body: EntityInformation| #[trigger]
        bucket(after, cell).contains(body) <==> bucket(before, cell).contains(body) || (body == info
            && info.shape.covers(info.pos, cell)) by {
        lemma_contains_concat(bucket(before, cell), seq![info], body);
        assert(bucket(before, cell).push(info) =~= bucket(before, cell) + seq![info]);
        if body == info {
            assert(seq![info][0] == body);
        }
    }
    assert forall|from: Cell, to: Cell, body: EntityInformation|
        bucket(after, from).contains(body) && body.shape.covers(body.pos, to) implies bucket(
        after,
        to,
    ).contains(body) by {
        if bucket(before, from).contains(body) {
            assert(bucket(before, to).contains(body));
        }
    }
}

} // verus!
