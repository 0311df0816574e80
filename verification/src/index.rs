//! The spatial index: a grid of buckets plus a reverse lookup from object
//! handle to its exact bucket slot, kept consistent under arbitrary
//! insert/move/remove sequences so that every operation is constant-time and
//! proximity queries walk only the cells around the query point.

use vstd::prelude::*;
use std::collections::HashMap;
use vstd::arithmetic::power::{pow, lemma_pow_adds, lemma_pow_increases, lemma_pow_positive};
use vstd::arithmetic::power2::{is_pow2, is_pow2_equiv};
use crate::board::Board;
use crate::coord::{clamped_high, clamped_low, coord_block, Coord, SurroundingCoords};
use crate::tile::{bucket_after_swap_removal, Entity, EntityPosition, Position, Tile, TileIter};

verus! {

/// Where a tracked object currently sits: which bucket, and which slot
/// inside that bucket.
#[derive(Copy, Clone)]
struct EntityIndex {
    board_index: usize,
    tile_index: usize,
}

/// The proximity-tracking index. It owns the grid of buckets and the reverse
/// lookup, and maintains the invariant that each tracked object occupies
/// exactly the bucket slot its lookup entry records, in the cell its last
/// reported position falls in.
pub struct Index {
    entity_lookup: HashMap<u64, EntityIndex>,
    board: Board,
    unit_size: usize,
    subsection_size: usize,
    cell_size: usize,
}

/// The linear index of the cell a position falls in, for a given cell size
/// and grid width: each axis is divided by the cell size and wrapped into the
/// grid, then the two axes are flattened row-major. The third component of
/// the position plays no part.
pub open spec fn cell_index_math(cell_size: int, sub: int, p: Position) -> int {
    (p.x as int / cell_size) % sub + ((p.y as int / cell_size) % sub) * sub
}

/// Every lookup entry points at a real slot that holds the object it is for.
spec fn lookup_points_to_slots(lookup: Map<u64, EntityIndex>, cells: Seq<Seq<EntityPosition>>) -> bool {
    forall|e: u64| #[trigger]
        lookup.contains_key(e) ==> {
            let idx = lookup[e];
            &&& idx.board_index < cells.len()
            &&& idx.tile_index < cells[idx.board_index as int].len()
            &&& cells[idx.board_index as int][idx.tile_index as int].entity.id == e
        }
}

/// Every occupied slot belongs to a tracked object whose lookup entry records
/// exactly that slot; with `lookup_points_to_slots` this makes slots and
/// lookup entries correspond one to one.
spec fn slots_point_to_lookup(lookup: Map<u64, EntityIndex>, cells: Seq<Seq<EntityPosition>>) -> bool {
    forall|bi: int, ti: int|
        #![trigger cells[bi][ti]]
        0 <= bi < cells.len() && 0 <= ti < cells[bi].len() ==> {
            let e = cells[bi][ti].entity.id;
            &&& lookup.contains_key(e)
            &&& lookup[e].board_index == bi
            &&& lookup[e].tile_index == ti
        }
}

/// Every stored entry sits in the bucket of the cell its position maps to.
spec fn slots_in_their_cell(cells: Seq<Seq<EntityPosition>>, cell_size: int, sub: int) -> bool {
    forall|bi: int, ti: int|
        #![trigger cells[bi][ti]]
        0 <= bi < cells.len() && 0 <= ti < cells[bi].len() ==> cell_index_math(
            cell_size,
            sub,
            cells[bi][ti].position,
        ) == bi
}

/// The full cross-structure invariant between the reverse lookup and the
/// grid contents.
spec fn grid_inv(
    lookup: Map<u64, EntityIndex>,
    cells: Seq<Seq<EntityPosition>>,
    cell_size: int,
    sub: int,
) -> bool {
    &&& lookup_points_to_slots(lookup, cells)
    &&& slots_point_to_lookup(lookup, cells)
    &&& slots_in_their_cell(cells, cell_size, sub)
}

/// The abstract content of a consistent grid: each tracked handle mapped to
/// the position stored in its recorded slot.
spec fn tracked_of(lookup: Map<u64, EntityIndex>, cells: Seq<Seq<EntityPosition>>) -> Map<
    u64,
    Position,
> {
    Map::new(
        |e: u64| lookup.contains_key(e),
        |e: u64| cells[lookup[e].board_index as int][lookup[e].tile_index as int].position,
    )
}

impl Index {
    /// The configured world span per axis, in world units.
    pub closed spec fn spec_unit_size(self) -> int {
        self.unit_size as int
    }

    /// The configured number of cells per axis.
    pub closed spec fn spec_subsection_size(self) -> int {
        self.subsection_size as int
    }

    /// The span of world units covered by one cell along each axis.
    pub closed spec fn spec_cell_size(self) -> int {
        self.cell_size as int
    }

    /// The grid's buckets, by linear cell index.
    pub closed spec fn spec_board(self) -> Seq<Tile> {
        self.board@
    }

    /// The grid contents as plain sequences: entry `i` is what bucket `i`
    /// holds.
    pub open spec fn cells(self) -> Seq<Seq<EntityPosition>> {
        Seq::new(self.spec_board().len(), |i: int| self.spec_board()[i]@)
    }

    /// The linear bucket index a position falls in: each axis is divided by
    /// the cell size and wrapped into the grid, then flattened row-major.
    pub open spec fn spec_cell_index(self, p: Position) -> int {
        cell_index_math(self.spec_cell_size(), self.spec_subsection_size(), p)
    }

    /// The abstract content of the index: each tracked object's handle mapped
    /// to the position it was last reported at.
    pub closed spec fn entities(self) -> Map<u64, Position> {
        tracked_of(self.entity_lookup@, self.cells())
    }

    /// The configuration part of the invariant: a non-degenerate grid whose
    /// flat array has one bucket per cell.
    spec fn config_wf(self) -> bool {
        &&& 1 <= self.subsection_size
        &&& 2 <= self.cell_size
        &&& self.cell_size == self.unit_size as int / self.subsection_size as int
        &&& self.subsection_size * self.subsection_size <= usize::MAX
        &&& self.board@.len() == self.subsection_size * self.subsection_size
    }

    /// The index's invariant, established by `new` and preserved by every
    /// operation.
    pub closed spec fn wf(self) -> bool {
        &&& self.config_wf()
        &&& grid_inv(
            self.entity_lookup@,
            self.cells(),
            self.cell_size as int,
            self.subsection_size as int,
        )
    }

    /// Builds a new index over a `unit_size` × `unit_size` world divided into
    /// `subsection_size` × `subsection_size` cells. Both sizes must be exact
    /// powers of two, with the subsection count strictly smaller, so that
    /// each cell covers at least two whole units per axis.
    pub fn new(unit_size: usize, subsection_size: usize) -> (index: Index)
        requires
            is_pow2(unit_size as int),
            is_pow2(subsection_size as int),
            subsection_size < unit_size,
            subsection_size * subsection_size <= usize::MAX,
        ensures
            index.wf(),
            index.entities() == Map::<u64, Position>::empty(),
            index.entities().dom().finite(),
            index.spec_unit_size() == unit_size,
            index.spec_subsection_size() == subsection_size,
            index.spec_cell_size() == unit_size as int / subsection_size as int,
            index.spec_board().len() == subsection_size * subsection_size,
            index.cells().len() == subsection_size * subsection_size,
            forall|i: int|
                0 <= i < index.cells().len() ==> #[trigger] index.cells()[i] == Seq::<
                    EntityPosition,
                >::empty(),
    {
        proof {
            lemma_pow2_ratio_at_least_two(unit_size as int, subsection_size as int);
        }
        let cell_size = unit_size / subsection_size;
        let board = Board::new(subsection_size);
        let index = Index {
            entity_lookup: HashMap::with_capacity(200),
            board,
            unit_size,
            subsection_size,
            cell_size,
        };
        proof {
            assert(index.entities() =~= Map::<u64, Position>::empty());
            lemma_entities_dom_finite(index);
        }
        index
    }

    /// Read access to the grid of buckets.
    pub fn board(&self) -> (b: &Board)
        ensures
            b@ == self.spec_board(),
    {
        &self.board
    }

    /// The linear bucket index for a position. For positions inside the
    /// configured bounds the wrap into the grid changes nothing; a position
    /// outside them still maps to some in-range bucket rather than reading
    /// out of bounds.
    pub fn board_index_for_vector(&self, position: &Position) -> (index: usize)
        requires
            self.wf(),
        ensures
            index == self.spec_cell_index(*position),
            index < self.spec_subsection_size() * self.spec_subsection_size(),
            index < self.spec_board().len(),
    {
        let cx = (position.x / self.cell_size) % self.subsection_size;
        let cy = (position.y / self.cell_size) % self.subsection_size;
        proof {
            assert(cx + cy * self.subsection_size < self.subsection_size * self.subsection_size)
                by (nonlinear_arith)
                requires
                    cx < self.subsection_size,
                    cy < self.subsection_size,
                    1 <= self.subsection_size,
            ;
        }
        cx + cy * self.subsection_size
    }

    /// Records `entity` as being at `position`: inserts it if it is
    /// untracked, updates its stored position in place if it stays in its
    /// current cell, and otherwise moves it between buckets, correcting the
    /// recorded slot of whatever entry the removal displaced.
    pub fn add_or_update_entity(&mut self, entity: &Entity, position: &Position)
        requires
            old(self).wf(),
        ensures
            final(self).wf(),
            final(self).entities() == old(self).entities().insert(entity.id, *position),
            final(self).entities().dom().finite(),
            final(self).spec_unit_size() == old(self).spec_unit_size(),
            final(self).spec_subsection_size() == old(self).spec_subsection_size(),
            final(self).spec_cell_size() == old(self).spec_cell_size(),
            final(self).cells().len() == old(self).cells().len(),
            !old(self).entities().contains_key(entity.id) ==> ({
                let c = old(self).spec_cell_index(*position);
                &&& final(self).cells()[c] == old(self).cells()[c].push(
                    EntityPosition { entity: *entity, position: *position },
                )
                &&& forall|b: int|
                    0 <= b < old(self).cells().len() && b != c ==> final(self).cells()[b] == old(self).cells()[b]
            }),
            old(self).entities().contains_key(entity.id) && old(self).spec_cell_index(
                old(self).entities()[entity.id],
            ) == old(self).spec_cell_index(*position) ==> ({
                let c = old(self).spec_cell_index(*position);
                &&& forall|s: int|
                    0 <= s < old(self).cells()[c].len() && (#[trigger] old(self).cells()[c][
                        s]).entity.id == entity.id ==> final(self).cells()[c] == old(self).cells()[c].update(
                        s,
                        EntityPosition { entity: *entity, position: *position },
                    )
                &&& forall|b: int|
                    0 <= b < old(self).cells().len() && b != c ==> final(self).cells()[b] == old(self).cells()[b]
            }),
            old(self).entities().contains_key(entity.id) && old(self).spec_cell_index(
                old(self).entities()[entity.id],
            ) != old(self).spec_cell_index(*position) ==> ({
                let c_from = old(self).spec_cell_index(old(self).entities()[entity.id]);
                let c_to = old(self).spec_cell_index(*position);
                &&& forall|s: int|
                    0 <= s < old(self).cells()[c_from].len() && (#[trigger] old(self).cells()[
                        c_from][s]).entity.id == entity.id ==> final(self).cells()[c_from]
                        == bucket_after_swap_removal(old(self).cells()[c_from], s)
                &&& final(self).cells()[c_to] == old(self).cells()[c_to].push(
                    EntityPosition { entity: *entity, position: *position },
                )
                &&& forall|b: int|
                    0 <= b < old(self).cells().len() && b != c_from && b != c_to ==> final(self).cells()[b] == old(self).cells()[b]
            }),
    {
        let board_index = self.board_index_for_vector(position);
        let found: Option<EntityIndex> = match self.entity_lookup.get(&entity.id) {
            Some(idx) => Some(*idx),
            None => None,
        };
        match found {
            None => {
                let tile = self.board.tile_at_index_mut(board_index);
                let tile_index = tile.add(*entity, *position);
                let ghost idx = EntityIndex { board_index, tile_index };
                self.entity_lookup.insert(entity.id, EntityIndex { board_index, tile_index });
                proof {
                    assert(*entity == Entity { id: entity.id });
                    assert(forall|b: int|
                        0 <= b < old(self).cells().len() && b != board_index
                            ==> self.cells()[b] == old(self).cells()[b]);
                    lemma_add_untracked(
                        old(self).entity_lookup@,
                        old(self).cells(),
                        self.entity_lookup@,
                        self.cells(),
                        self.cell_size as int,
                        self.subsection_size as int,
                        entity.id,
                        *position,
                        idx,
                    );
                    lemma_entities_dom_finite(*self);
                    assert(!old(self).entities().contains_key(entity.id));
                    assert(self.cells()[board_index as int] == old(self).cells()[
                        board_index as int].push(
                        EntityPosition { entity: *entity, position: *position },
                    ));
                }
            },
            Some(same) => {
                if same.board_index == board_index {
                    proof {
                        assert(old(self).entity_lookup@.contains_key(entity.id));
                        assert(old(self).entity_lookup@[entity.id] == same);
                    }
                    let tile = self.board.tile_at_index_mut(board_index);
                    tile.update_position(same.tile_index, *position);
                    proof {
                        let e = entity.id;
                        let bi = same.board_index as int;
                        let ti = same.tile_index as int;
                        assert(old(self).cells()[bi][ti].entity == Entity { id: e });
                        assert(self.cells() =~= old(self).cells().update(
                            bi,
                            old(self).cells()[bi].update(
                                ti,
                                EntityPosition { entity: Entity { id: e }, position: *position },
                            ),
                        ));
                        lemma_update_tracked(
                            old(self).entity_lookup@,
                            old(self).cells(),
                            self.cells(),
                            self.cell_size as int,
                            self.subsection_size as int,
                            e,
                            *position,
                        );
                        lemma_entities_dom_finite(*self);
                        assert(old(self).entities().contains_key(e));
                        assert(old(self).entities()[e] == old(self).cells()[bi][ti].position);
                        assert(old(self).spec_cell_index(old(self).entities()[e]) == bi);
                        assert forall|s: int|
                            0 <= s < old(self).cells()[bi].len() && (#[trigger] old(self).cells()[
                                bi][s]).entity.id == e implies self.cells()[bi] == old(self).cells()[bi].update(
                            s,
                            EntityPosition { entity: *entity, position: *position },
                        ) by {
                            assert(old(self).entity_lookup@[e].tile_index == s);
                        }
                        assert(forall|b: int|
                            0 <= b < old(self).cells().len() && b != bi ==> self.cells()[b] == old(self).cells()[b]);
                    }
                } else {
                    proof {
                        assert(old(self).entity_lookup@.contains_key(entity.id));
                        assert(old(self).entity_lookup@[entity.id] == same);
                    }
                    let tile = self.board.tile_at_index_mut(same.board_index);
                    let displaced = tile.remove(same.tile_index);
                    match displaced {
                        Some(d) => {
                            self.entity_lookup.insert(
                                d.id,
                                EntityIndex {
                                    board_index: same.board_index,
                                    tile_index: same.tile_index,
                                },
                            );
                        },
                        None => {},
                    }
                    let ghost mid_lookup = self.entity_lookup@.remove(entity.id);
                    let ghost mid_cells = self.cells();
                    proof {
                        assert(forall|b: int|
                            0 <= b < old(self).cells().len() && b != same.board_index
                                ==> mid_cells[b] == old(self).cells()[b]);
                        lemma_remove_tracked(
                            old(self).entity_lookup@,
                            old(self).cells(),
                            mid_lookup,
                            mid_cells,
                            self.cell_size as int,
                            self.subsection_size as int,
                            entity.id,
                        );
                    }
                    let new_tile = self.board.tile_at_index_mut(board_index);
                    let tile_index = new_tile.add(*entity, *position);
                    let ghost idx = EntityIndex { board_index, tile_index };
                    self.entity_lookup.insert(entity.id, EntityIndex { board_index, tile_index });
                    proof {
                        let e = entity.id;
                        assert(*entity == Entity { id: e });
                        assert(self.entity_lookup@ =~= mid_lookup.insert(e, idx));
                        assert(forall|b: int|
                            0 <= b < mid_cells.len() && b != board_index ==> self.cells()[b]
                                == mid_cells[b]);
                        lemma_add_untracked(
                            mid_lookup,
                            mid_cells,
                            self.entity_lookup@,
                            self.cells(),
                            self.cell_size as int,
                            self.subsection_size as int,
                            e,
                            *position,
                            idx,
                        );
                        assert(tracked_of(old(self).entity_lookup@, old(self).cells()).remove(
                            e,
                        ).insert(e, *position) =~= tracked_of(
                            old(self).entity_lookup@,
                            old(self).cells(),
                        ).insert(e, *position));
                        lemma_entities_dom_finite(*self);
                        let c_from = same.board_index as int;
                        let t_from = same.tile_index as int;
                        assert(old(self).entities().contains_key(e));
                        assert(old(self).entities()[e] == old(self).cells()[c_from][
                            t_from].position);
                        assert(old(self).spec_cell_index(old(self).entities()[e]) == c_from);
                        assert(old(self).spec_cell_index(*position) == board_index as int);
                        assert(mid_cells[c_from] == bucket_after_swap_removal(
                            old(self).cells()[c_from],
                            t_from,
                        ));
                        assert(self.cells()[c_from] == mid_cells[c_from]);
                        assert forall|s: int|
                            0 <= s < old(self).cells()[c_from].len() && (#[trigger] old(self).cells()[c_from][s]).entity.id == e implies self.cells()[c_from]
                            == bucket_after_swap_removal(old(self).cells()[c_from], s) by {
                            assert(old(self).entity_lookup@[e].tile_index == s);
                        }
                        assert(self.cells()[board_index as int] == old(self).cells()[
                            board_index as int].push(
                            EntityPosition { entity: *entity, position: *position },
                        ));
                        assert(forall|b: int|
                            0 <= b < old(self).cells().len() && b != c_from && b
                                != board_index ==> self.cells()[b] == old(self).cells()[b]);
                    }
                }
            },
        }
    }

    /// Stops tracking `entity`: takes it out of its bucket (correcting the
    /// recorded slot of whatever entry the swap-removal displaced) and drops
    /// its lookup entry. Removing an untracked object changes nothing.
    pub fn remove(&mut self, entity: &Entity)
        requires
            old(self).wf(),
        ensures
            final(self).wf(),
            final(self).entities() == old(self).entities().remove(entity.id),
            final(self).entities().dom().finite(),
            final(self).spec_unit_size() == old(self).spec_unit_size(),
            final(self).spec_subsection_size() == old(self).spec_subsection_size(),
            final(self).spec_cell_size() == old(self).spec_cell_size(),
            final(self).cells().len() == old(self).cells().len(),
            !old(self).entities().contains_key(entity.id) ==> *final(self) == *old(self),
            old(self).entities().contains_key(entity.id) ==> ({
                let c = old(self).spec_cell_index(old(self).entities()[entity.id]);
                &&& forall|s: int|
                    0 <= s < old(self).cells()[c].len() && (#[trigger] old(self).cells()[c][
                        s]).entity.id == entity.id ==> final(self).cells()[c]
                        == bucket_after_swap_removal(old(self).cells()[c], s)
                &&& forall|b: int|
                    0 <= b < old(self).cells().len() && b != c ==> final(self).cells()[b]
                        == old(self).cells()[b]
            }),
    {
        let found: Option<EntityIndex> = match self.entity_lookup.get(&entity.id) {
            Some(idx) => Some(*idx),
            None => None,
        };
        match found {
            None => {
                proof {
                    assert(self.entities() =~= old(self).entities().remove(entity.id));
                    lemma_entities_dom_finite(*self);
                }
            },
            Some(idx) => {
                proof {
                    assert(old(self).entity_lookup@.contains_key(entity.id));
                    assert(old(self).entity_lookup@[entity.id] == idx);
                }
                let tile = self.board.tile_at_index_mut(idx.board_index);
                let displaced = tile.remove(idx.tile_index);
                match displaced {
                    Some(d) => {
                        self.entity_lookup.insert(
                            d.id,
                            EntityIndex {
                                board_index: idx.board_index,
                                tile_index: idx.tile_index,
                            },
                        );
                    },
                    None => {},
                }
                self.entity_lookup.remove(&entity.id);
                proof {
                    assert(forall|b: int|
                        0 <= b < old(self).cells().len() && b != idx.board_index ==> self.cells()[b]
                            == old(self).cells()[b]);
                    lemma_remove_tracked(
                        old(self).entity_lookup@,
                        old(self).cells(),
                        self.entity_lookup@,
                        self.cells(),
                        self.cell_size as int,
                        self.subsection_size as int,
                        entity.id,
                    );
                    lemma_entities_dom_finite(*self);
                    let e = entity.id;
                    let c = idx.board_index as int;
                    let t = idx.tile_index as int;
                    assert(old(self).entities().contains_key(e));
                    assert(old(self).entities()[e] == old(self).cells()[c][t].position);
                    assert(old(self).spec_cell_index(old(self).entities()[e]) == c);
                    assert(self.cells()[c] == bucket_after_swap_removal(old(self).cells()[c], t));
                    assert forall|s: int|
                        0 <= s < old(self).cells()[c].len() && (#[trigger] old(self).cells()[c][
                            s]).entity.id == e implies self.cells()[c]
                        == bucket_after_swap_removal(old(self).cells()[c], s) by {
                        assert(old(self).entity_lookup@[e].tile_index == s);
                    }
                }
            },
        }
    }

    /// The cell a position falls in, as a coordinate pair.
    pub open spec fn spec_cell_coord(self, p: Position) -> Coord {
        Coord {
            x: ((p.x as int / self.spec_cell_size()) % self.spec_subsection_size()) as usize,
            y: ((p.y as int / self.spec_cell_size()) % self.spec_subsection_size()) as usize,
        }
    }

    /// How many cells out a proximity query walks: the radius in whole
    /// cells (floor division by the cell size), plus one cell of margin to
    /// cover partial overlap.
    pub open spec fn spec_query_distance(self, radius: usize) -> int {
        radius as int / self.spec_cell_size() + 1
    }

    /// The square of cell coordinates a proximity query at `p` walks: every
    /// cell within the query distance of `p`'s cell, clamped to the grid,
    /// in row-major order.
    pub open spec fn query_block(self, p: Position, radius: usize) -> Seq<Coord> {
        let c = self.spec_cell_coord(p);
        let d = self.spec_query_distance(radius);
        let ceiling = self.spec_subsection_size() - 1;
        coord_block(
            clamped_low(c.x as int, d),
            clamped_high(c.x as int, d, ceiling),
            clamped_low(c.y as int, d),
            clamped_high(c.y as int, d, ceiling) + 1,
        )
    }

    /// Everything a proximity query at `p` yields, in order: the contents of
    /// the square's buckets, chained.
    pub open spec fn query_candidates(self, p: Position, radius: usize) -> Seq<EntityPosition> {
        buckets_of(self.cells(), self.query_block(p, radius), self.spec_subsection_size())
    }

    /// Starts a lazy traversal of every object stored in the square of cells
    /// within the query distance of `position`'s cell (the radius in whole
    /// cells, plus one cell of margin). It yields candidates only — every
    /// object in those cells, with no exact-distance filtering — and reads
    /// the grid live, so it must be drained or dropped before the index is
    /// next mutated.
    pub fn nearby_entities<'a>(&'a self, position: &Position, radius: usize) -> (it:
        SurroundingEntites<'a>)
        requires
            self.wf(),
        ensures
            it.wf(),
            it.spec_index() == *self,
            it.remaining() == self.query_candidates(*position, radius),
    {
        let cx = (position.x / self.cell_size) % self.subsection_size;
        let cy = (position.y / self.cell_size) % self.subsection_size;
        let ghost sub = self.subsection_size as int;
        proof {
            assert(cx + (radius as int / self.cell_size as int + 1) <= usize::MAX
                && cy + (radius as int / self.cell_size as int + 1) <= usize::MAX)
                by (nonlinear_arith)
                requires
                    cx < sub,
                    cy < sub,
                    1 <= sub,
                    sub * sub <= usize::MAX,
                    2 <= self.cell_size,
                    radius <= usize::MAX,
                    sub == self.subsection_size as int,
            ;
        }
        let distance = radius / self.cell_size + 1;
        let mut coords = Coord::new(cx, cy).surrounding_coords(distance, self.subsection_size - 1);
        let ghost min_x = clamped_low(cx as int, distance as int);
        let ghost max_x = clamped_high(cx as int, distance as int, sub - 1);
        let ghost min_y = clamped_low(cy as int, distance as int);
        let ghost max_y = clamped_high(cy as int, distance as int, sub - 1) + 1;
        proof {
            crate::coord::lemma_coord_block_len(min_x, max_x, min_y, max_y);
            assert((max_x + 1 - min_x) * (max_y - min_y) >= 1) by (nonlinear_arith)
                requires
                    max_x + 1 - min_x >= 1,
                    max_y - min_y >= 1,
            ;
            crate::coord::lemma_coord_block_bounds(min_x, max_x, min_y, max_y);
        }
        let first = coords.next().unwrap();
        proof {
            assert(coord_in_grid(first, sub));
            assert(first.x + first.y * sub < sub * sub) by (nonlinear_arith)
                requires
                    first.x < sub,
                    first.y < sub,
                    1 <= sub,
            ;
        }
        let entities = self.board.tile_at_index(first.x + first.y * self.subsection_size).iter();
        let it = SurroundingEntites { index: self, coords, entities };
        proof {
            let block = self.query_block(*position, radius);
            assert(buckets_of(self.cells(), block, sub) == self.cells()[first.x + first.y * sub]
                + buckets_of(self.cells(), block.drop_first(), sub));
            assert(it.remaining() =~= self.query_candidates(*position, radius));
            assert forall|i: int| 0 <= i < it.coords.remaining().len() implies coord_in_grid(
                #[trigger] it.coords.remaining()[i],
                sub,
            ) by {
                assert(it.coords.remaining()[i] == block[i + 1]);
            }
        }
        it
    }
}

/// Whether a cell coordinate lies inside a grid `sub` cells wide.
spec fn coord_in_grid(c: Coord, sub: int) -> bool {
    c.x < sub && c.y < sub
}

/// The entries of the buckets at the given cell coordinates, chained in
/// order.
pub open spec fn buckets_of(cells: Seq<Seq<EntityPosition>>, coords: Seq<Coord>, sub: int) -> Seq<
    EntityPosition,
>
    decreases coords.len(),
{
    if coords.len() == 0 {
        Seq::empty()
    } else {
        cells[coords[0].x + coords[0].y * sub] + buckets_of(cells, coords.drop_first(), sub)
    }
}

/// An in-progress lazy proximity traversal: it walks the square of cells
/// around the query point, yielding each bucket's entries in turn, without
/// ever materializing the candidates.
pub struct SurroundingEntites<'a> {
    index: &'a Index,
    coords: SurroundingCoords,
    entities: TileIter<'a>,
}

impl<'a> SurroundingEntites<'a> {
    /// The index this traversal reads.
    pub closed spec fn spec_index(self) -> Index {
        *self.index
    }

    pub closed spec fn wf(self) -> bool {
        &&& self.index.wf()
        &&& self.coords.wf()
        &&& self.entities.wf()
        &&& forall|i: int|
            0 <= i < self.coords.remaining().len() ==> coord_in_grid(
                #[trigger] self.coords.remaining()[i],
                self.index.subsection_size as int,
            )
    }

    /// The candidates this traversal has not yet yielded: the rest of the
    /// current bucket, then the full buckets of the cells not yet visited.
    pub closed spec fn remaining(self) -> Seq<EntityPosition> {
        self.entities.remaining() + buckets_of(
            self.index.cells(),
            self.coords.remaining(),
            self.index.subsection_size as int,
        )
    }

    /// Yields the next candidate, or `None` once every bucket in the square
    /// has been drained.
    pub fn next(&mut self) -> (r: Option<EntityPosition>)
        requires
            old(self).wf(),
        ensures
            final(self).wf(),
            final(self).spec_index() == old(self).spec_index(),
            r matches Some(ep) ==> {
                &&& old(self).remaining().len() > 0
                &&& ep == old(self).remaining()[0]
                &&& final(self).remaining() == old(self).remaining().drop_first()
            },
            r is None ==> {
                &&& old(self).remaining().len() == 0
                &&& final(self).remaining().len() == 0
            },
    {
        loop
            invariant
                self.wf(),
                self.index == old(self).index,
                self.remaining() == old(self).remaining(),
            decreases self.coords.remaining().len(),
        {
            let ghost pre = *self;
            let next = self.entities.next();
            if next.is_some() {
                proof {
                    assert(self.remaining() =~= pre.remaining().drop_first());
                }
                return next;
            }
            match self.coords.next() {
                Some(coord) => {
                    let ghost sub = self.index.subsection_size as int;
                    proof {
                        assert(coord == pre.coords.remaining()[0]);
                        assert(coord_in_grid(coord, sub));
                        assert(coord.x + coord.y * sub < sub * sub) by (nonlinear_arith)
                            requires
                                coord.x < sub,
                                coord.y < sub,
                                1 <= sub,
                        ;
                    }
                    let tile = self.index.board.tile_at_index(
                        coord.x + coord.y * self.index.subsection_size,
                    );
                    self.entities = tile.iter();
                    proof {
                        let lin = coord.x + coord.y * sub;
                        assert(self.entities.remaining() == self.index.cells()[lin]);
                        assert(buckets_of(self.index.cells(), pre.coords.remaining(), sub)
                            == self.index.cells()[lin] + buckets_of(
                            self.index.cells(),
                            pre.coords.remaining().drop_first(),
                            sub,
                        ));
                        assert(pre.entities.remaining().len() == 0);
                        assert(self.remaining() =~= pre.remaining());
                        assert forall|i: int| 0 <= i < self.coords.remaining().len() implies
                            coord_in_grid(#[trigger] self.coords.remaining()[i], sub) by {
                            assert(self.coords.remaining()[i] == pre.coords.remaining()[i + 1]);
                        }
                    }
                },
                None => {
                    proof {
                        assert(self.remaining().len() == 0);
                    }
                    return None;
                },
            }
        }
    }
}

/// Appending an untracked object to the bucket of its position's cell, and
/// recording that slot in the lookup, keeps the grid consistent and inserts
/// the object into the abstract content.
proof fn lemma_add_untracked(
    lookup: Map<u64, EntityIndex>,
    cells: Seq<Seq<EntityPosition>>,
    lookup2: Map<u64, EntityIndex>,
    cells2: Seq<Seq<EntityPosition>>,
    cell_size: int,
    sub: int,
    e: u64,
    p: Position,
    idx: EntityIndex,
)
    requires
        grid_inv(lookup, cells, cell_size, sub),
        !lookup.contains_key(e),
        0 <= idx.board_index < cells.len(),
        cell_index_math(cell_size, sub, p) == idx.board_index,
        idx.tile_index == cells[idx.board_index as int].len(),
        cells2.len() == cells.len(),
        forall|b: int| 0 <= b < cells.len() && b != idx.board_index ==> cells2[b] == cells[b],
        cells2[idx.board_index as int] == cells[idx.board_index as int].push(
            EntityPosition { entity: Entity { id: e }, position: p },
        ),
        lookup2 == lookup.insert(e, idx),
    ensures
        grid_inv(lookup2, cells2, cell_size, sub),
        tracked_of(lookup2, cells2) == tracked_of(lookup, cells).insert(e, p),
{
    let bi = idx.board_index as int;
    let ti = idx.tile_index as int;
    assert(cells2[bi][ti].entity.id == e);
    assert forall|e2: u64| #[trigger] lookup2.contains_key(e2) implies {
        let i2 = lookup2[e2];
        &&& i2.board_index < cells2.len()
        &&& i2.tile_index < cells2[i2.board_index as int].len()
        &&& cells2[i2.board_index as int][i2.tile_index as int].entity.id == e2
    } by {
        if e2 != e {
            assert(lookup.contains_key(e2));
            let i2 = lookup[e2];
            assert(cells[i2.board_index as int][i2.tile_index as int].entity.id == e2);
            if i2.board_index as int == bi {
                assert(cells2[bi][i2.tile_index as int] == cells[bi][i2.tile_index as int]);
            }
        }
    }
    assert forall|b2: int, t2: int|
        #![trigger cells2[b2][t2]]
        0 <= b2 < cells2.len() && 0 <= t2 < cells2[b2].len() implies {
        let e2 = cells2[b2][t2].entity.id;
        &&& lookup2.contains_key(e2)
        &&& lookup2[e2].board_index == b2
        &&& lookup2[e2].tile_index == t2
    } by {
        if !(b2 == bi && t2 == ti) {
            assert(cells2[b2][t2] == cells[b2][t2]);
            let e2 = cells[b2][t2].entity.id;
            assert(lookup.contains_key(e2) && lookup[e2].board_index == b2
                && lookup[e2].tile_index == t2);
            assert(e2 != e);
        }
    }
    assert forall|b2: int, t2: int|
        #![trigger cells2[b2][t2]]
        0 <= b2 < cells2.len() && 0 <= t2 < cells2[b2].len() implies cell_index_math(
        cell_size,
        sub,
        cells2[b2][t2].position,
    ) == b2 by {
        if !(b2 == bi && t2 == ti) {
            assert(cells2[b2][t2] == cells[b2][t2]);
        }
    }
    let pre = tracked_of(lookup, cells);
    let post = tracked_of(lookup2, cells2);
    assert(post =~= pre.insert(e, p)) by {
        assert(post.dom() =~= pre.insert(e, p).dom());
        assert forall|k: u64| post.contains_key(k) implies post[k] == pre.insert(e, p)[k] by {
            if k != e {
                let i2 = lookup[k];
                assert(cells[i2.board_index as int][i2.tile_index as int].entity.id == k);
                if i2.board_index as int == bi {
                    assert(cells2[bi][i2.tile_index as int] == cells[bi][i2.tile_index as int]);
                }
            }
        }
    }
}

/// Overwriting the position stored in a tracked object's slot, when the new
/// position still falls in the same cell, keeps the grid consistent and
/// updates the abstract content in place.
proof fn lemma_update_tracked(
    lookup: Map<u64, EntityIndex>,
    cells: Seq<Seq<EntityPosition>>,
    cells2: Seq<Seq<EntityPosition>>,
    cell_size: int,
    sub: int,
    e: u64,
    p: Position,
)
    requires
        grid_inv(lookup, cells, cell_size, sub),
        lookup.contains_key(e),
        cell_index_math(cell_size, sub, p) == lookup[e].board_index,
        cells2 == cells.update(
            lookup[e].board_index as int,
            cells[lookup[e].board_index as int].update(
                lookup[e].tile_index as int,
                EntityPosition { entity: Entity { id: e }, position: p },
            ),
        ),
    ensures
        grid_inv(lookup, cells2, cell_size, sub),
        tracked_of(lookup, cells2) == tracked_of(lookup, cells).insert(e, p),
{
    let bi = lookup[e].board_index as int;
    let ti = lookup[e].tile_index as int;
    assert(0 <= ti < cells[bi].len());
    assert(cells2[bi][ti].entity.id == e);
    assert forall|e2: u64| #[trigger] lookup.contains_key(e2) implies {
        let i2 = lookup[e2];
        &&& i2.board_index < cells2.len()
        &&& i2.tile_index < cells2[i2.board_index as int].len()
        &&& cells2[i2.board_index as int][i2.tile_index as int].entity.id == e2
    } by {
        let i2 = lookup[e2];
        assert(cells[i2.board_index as int][i2.tile_index as int].entity.id == e2);
        if !(i2.board_index as int == bi && i2.tile_index as int == ti) {
            assert(cells2[i2.board_index as int][i2.tile_index as int] == cells[i2.board_index
                as int][i2.tile_index as int]);
        }
    }
    assert forall|b2: int, t2: int|
        #![trigger cells2[b2][t2]]
        0 <= b2 < cells2.len() && 0 <= t2 < cells2[b2].len() implies {
        let e2 = cells2[b2][t2].entity.id;
        &&& lookup.contains_key(e2)
        &&& lookup[e2].board_index == b2
        &&& lookup[e2].tile_index == t2
    } by {
        assert(cells[b2][t2].entity.id == cells2[b2][t2].entity.id);
    }
    assert forall|b2: int, t2: int|
        #![trigger cells2[b2][t2]]
        0 <= b2 < cells2.len() && 0 <= t2 < cells2[b2].len() implies cell_index_math(
        cell_size,
        sub,
        cells2[b2][t2].position,
    ) == b2 by {
        if !(b2 == bi && t2 == ti) {
            assert(cells2[b2][t2] == cells[b2][t2]);
        }
    }
    let pre = tracked_of(lookup, cells);
    let post = tracked_of(lookup, cells2);
    assert(post =~= pre.insert(e, p)) by {
        assert(post.dom() =~= pre.insert(e, p).dom());
        assert forall|k: u64| post.contains_key(k) implies post[k] == pre.insert(e, p)[k] by {
            if k != e {
                let i2 = lookup[k];
                assert(cells[i2.board_index as int][i2.tile_index as int].entity.id == k);
                assert(!(i2.board_index as int == bi && i2.tile_index as int == ti));
                assert(cells2[i2.board_index as int][i2.tile_index as int] == cells[i2.board_index
                    as int][i2.tile_index as int]);
            }
        }
    }
}

/// Taking a tracked object out of its bucket by swap-removal — with the
/// displaced last entry's lookup slot corrected to the freed slot, and the
/// object's own lookup entry dropped — keeps the grid consistent and removes
/// the object from the abstract content.
proof fn lemma_remove_tracked(
    lookup: Map<u64, EntityIndex>,
    cells: Seq<Seq<EntityPosition>>,
    lookup2: Map<u64, EntityIndex>,
    cells2: Seq<Seq<EntityPosition>>,
    cell_size: int,
    sub: int,
    e: u64,
)
    requires
        grid_inv(lookup, cells, cell_size, sub),
        lookup.contains_key(e),
        cells2.len() == cells.len(),
        forall|b: int| 0 <= b < cells.len() && b != lookup[e].board_index ==> cells2[b] == cells[b],
        lookup[e].tile_index + 1 == cells[lookup[e].board_index as int].len() ==> {
            &&& cells2[lookup[e].board_index as int] == cells[lookup[e].board_index as int].drop_last()
            &&& lookup2 == lookup.remove(e)
        },
        lookup[e].tile_index + 1 < cells[lookup[e].board_index as int].len() ==> {
            &&& cells2[lookup[e].board_index as int] == cells[lookup[e].board_index as int].update(
                lookup[e].tile_index as int,
                cells[lookup[e].board_index as int].last(),
            ).drop_last()
            &&& lookup2 == lookup.insert(
                cells[lookup[e].board_index as int].last().entity.id,
                lookup[e],
            ).remove(e)
        },
    ensures
        grid_inv(lookup2, cells2, cell_size, sub),
        tracked_of(lookup2, cells2) == tracked_of(lookup, cells).remove(e),
{
    let bi = lookup[e].board_index as int;
    let ti = lookup[e].tile_index as int;
    let t = cells[bi];
    let l = t.len() as int;
    assert(0 <= ti < l);
    assert(cells[bi][ti].entity.id == e);
    let displaced = ti + 1 < l;
    let d = t.last().entity.id;
    assert(cells2[bi].len() == l - 1);
    assert(forall|j: int| 0 <= j < l - 1 && j != ti ==> cells2[bi][j] == t[j]);
    if displaced {
        assert(cells[bi][l - 1] == t.last());
        assert(lookup[d].board_index == bi && lookup[d].tile_index == l - 1);
        assert(d != e);
        assert(cells2[bi][ti] == t.last());
    }
    assert forall|e2: u64| #[trigger] lookup2.contains_key(e2) implies {
        let i2 = lookup2[e2];
        &&& i2.board_index < cells2.len()
        &&& i2.tile_index < cells2[i2.board_index as int].len()
        &&& cells2[i2.board_index as int][i2.tile_index as int].entity.id == e2
    } by {
        assert(e2 != e);
        if displaced && e2 == d {
            assert(lookup2[e2] == lookup[e]);
        } else {
            assert(lookup.contains_key(e2) && lookup2[e2] == lookup[e2]);
            let i2 = lookup[e2];
            assert(cells[i2.board_index as int][i2.tile_index as int].entity.id == e2);
            if i2.board_index as int == bi {
                let t2 = i2.tile_index as int;
                assert(t2 != ti);
                if displaced && t2 == l - 1 {
                    assert(e2 == d);
                }
                assert(t2 < l - 1);
                assert(cells2[bi][t2] == t[t2]);
            }
        }
    }
    assert forall|b2: int, t2: int|
        #![trigger cells2[b2][t2]]
        0 <= b2 < cells2.len() && 0 <= t2 < cells2[b2].len() implies {
        let e2 = cells2[b2][t2].entity.id;
        &&& lookup2.contains_key(e2)
        &&& lookup2[e2].board_index == b2
        &&& lookup2[e2].tile_index == t2
    } by {
        if b2 == bi {
            if displaced && t2 == ti {
                assert(cells2[b2][t2].entity.id == d);
                assert(lookup2[d] == lookup[e]);
            } else {
                assert(t2 != ti);
                assert(cells2[bi][t2] == t[t2]);
                assert(cells[bi][t2].entity.id == t[t2].entity.id);
                let e2 = t[t2].entity.id;
                assert(lookup.contains_key(e2) && lookup[e2].board_index == bi
                    && lookup[e2].tile_index == t2);
                assert(e2 != e);
                if displaced {
                    assert(e2 != d);
                }
                assert(lookup2.contains_key(e2) && lookup2[e2] == lookup[e2]);
            }
        } else {
            assert(cells2[b2][t2] == cells[b2][t2]);
            let e2 = cells[b2][t2].entity.id;
            assert(lookup.contains_key(e2) && lookup[e2].board_index == b2
                && lookup[e2].tile_index == t2);
            assert(e2 != e);
            if displaced {
                assert(e2 != d);
            }
            assert(lookup2.contains_key(e2) && lookup2[e2] == lookup[e2]);
        }
    }
    assert forall|b2: int, t2: int|
        #![trigger cells2[b2][t2]]
        0 <= b2 < cells2.len() && 0 <= t2 < cells2[b2].len() implies cell_index_math(
        cell_size,
        sub,
        cells2[b2][t2].position,
    ) == b2 by {
        if b2 == bi {
            if displaced && t2 == ti {
                assert(cells2[b2][t2] == cells[bi][l - 1]);
            } else {
                assert(cells2[b2][t2] == cells[b2][t2]);
            }
        } else {
            assert(cells2[b2][t2] == cells[b2][t2]);
        }
    }
    let pre = tracked_of(lookup, cells);
    let post = tracked_of(lookup2, cells2);
    assert(post =~= pre.remove(e)) by {
        assert(post.dom() =~= pre.remove(e).dom());
        assert forall|k: u64| post.contains_key(k) implies post[k] == pre.remove(e)[k] by {
            assert(k != e);
            if displaced && k == d {
                assert(lookup2[d] == lookup[e]);
                assert(post[k] == cells2[bi][ti].position);
                assert(pre[k] == cells[bi][l - 1].position);
            } else {
                assert(lookup2[k] == lookup[k]);
                let i2 = lookup[k];
                assert(cells[i2.board_index as int][i2.tile_index as int].entity.id == k);
                if i2.board_index as int == bi {
                    let t2 = i2.tile_index as int;
                    assert(t2 != ti);
                    if displaced && t2 == l - 1 {
                        assert(k == d);
                    }
                    assert(t2 < l - 1);
                    assert(cells2[bi][t2] == t[t2]);
                }
            }
        }
    }
}

/// How many of the entries in a sequence carry the handle `e`.
pub open spec fn entity_count(s: Seq<EntityPosition>, e: u64) -> nat
    decreases s.len(),
{
    if s.len() == 0 {
        0
    } else {
        (if s[0].entity.id == e {
            1nat
        } else {
            0nat
        }) + entity_count(s.drop_first(), e)
    }
}

proof fn lemma_entity_count_none(s: Seq<EntityPosition>, e: u64)
    requires
        forall|j: int| 0 <= j < s.len() ==> (#[trigger] s[j]).entity.id != e,
    ensures
        entity_count(s, e) == 0,
    decreases s.len(),
{
    if s.len() > 0 {
        assert forall|j: int| 0 <= j < s.drop_first().len() implies (#[trigger] s.drop_first()[j]).entity.id
            != e by {
            assert(s.drop_first()[j] == s[j + 1]);
        }
        lemma_entity_count_none(s.drop_first(), e);
    }
}

proof fn lemma_entity_count_one(s: Seq<EntityPosition>, e: u64, ti: int)
    requires
        0 <= ti < s.len(),
        s[ti].entity.id == e,
        forall|j: int| 0 <= j < s.len() && j != ti ==> (#[trigger] s[j]).entity.id != e,
    ensures
        entity_count(s, e) == 1,
    decreases s.len(),
{
    if ti == 0 {
        assert forall|j: int| 0 <= j < s.drop_first().len() implies (#[trigger] s.drop_first()[j]).entity.id
            != e by {
            assert(s.drop_first()[j] == s[j + 1]);
        }
        lemma_entity_count_none(s.drop_first(), e);
    } else {
        assert(s.drop_first()[ti - 1] == s[ti]);
        assert forall|j: int| 0 <= j < s.drop_first().len() && j != ti - 1 implies (#[trigger] s.drop_first()[j]).entity.id != e by {
            assert(s.drop_first()[j] == s[j + 1]);
        }
        lemma_entity_count_one(s.drop_first(), e, ti - 1);
    }
}

proof fn lemma_entity_count_concat(a: Seq<EntityPosition>, b: Seq<EntityPosition>, e: u64)
    ensures
        entity_count(a + b, e) == entity_count(a, e) + entity_count(b, e),
    decreases a.len(),
{
    if a.len() == 0 {
        assert(a + b =~= b);
    } else {
        assert((a + b).drop_first() =~= a.drop_first() + b);
        assert((a + b)[0] == a[0]);
        lemma_entity_count_concat(a.drop_first(), b, e);
    }
}

/// How often `e` occurs in one bucket: once if `e`'s lookup entry points
/// into that bucket, never otherwise.
proof fn lemma_tile_entity_count(s: Index, bi: int, e: u64)
    requires
        s.wf(),
        0 <= bi < s.cells().len(),
    ensures
        entity_count(s.cells()[bi], e) == if s.entity_lookup@.contains_key(e)
            && s.entity_lookup@[e].board_index == bi {
            1nat
        } else {
            0nat
        },
{
    let t = s.cells()[bi];
    if s.entity_lookup@.contains_key(e) && s.entity_lookup@[e].board_index == bi {
        let ti = s.entity_lookup@[e].tile_index as int;
        assert(s.cells()[bi][ti].entity.id == e);
        assert forall|j: int| 0 <= j < t.len() && j != ti implies (#[trigger] t[j]).entity.id
            != e by {
            assert(s.cells()[bi][j] == t[j]);
        }
        lemma_entity_count_one(t, e, ti);
    } else {
        assert forall|j: int| 0 <= j < t.len() implies (#[trigger] t[j]).entity.id != e by {
            assert(s.cells()[bi][j] == t[j]);
        }
        lemma_entity_count_none(t, e);
    }
}

/// Row-major flattening is injective on in-grid coordinates.
proof fn lemma_linear_index_injective(c1: Coord, c2: Coord, sub: int)
    requires
        1 <= sub,
        coord_in_grid(c1, sub),
        coord_in_grid(c2, sub),
        c1.x + c1.y * sub == c2.x + c2.y * sub,
    ensures
        c1 == c2,
{
    assert(c1.x == c2.x && c1.y == c2.y) by (nonlinear_arith)
        requires
            0 <= c1.x < sub,
            0 <= c2.x < sub,
            0 <= c1.y,
            0 <= c2.y,
            c1.x + c1.y * sub == c2.x + c2.y * sub,
    ;
}

/// How often `e` occurs across the buckets of a duplicate-free list of
/// in-grid cells: once if `e` is tracked and its cell is in the list, never
/// otherwise.
proof fn lemma_buckets_of_count(s: Index, coords: Seq<Coord>, e: u64, c_e: Coord)
    requires
        s.wf(),
        forall|i: int|
            0 <= i < coords.len() ==> coord_in_grid(#[trigger] coords[i], s.spec_subsection_size()),
        forall|i: int, j: int| 0 <= i < j < coords.len() ==> coords[i] != coords[j],
        coord_in_grid(c_e, s.spec_subsection_size()),
        s.entity_lookup@.contains_key(e) ==> s.entity_lookup@[e].board_index == c_e.x + c_e.y
            * s.spec_subsection_size(),
    ensures
        entity_count(buckets_of(s.cells(), coords, s.spec_subsection_size()), e) == if s.entity_lookup@.contains_key(e)
            && coords.contains(c_e) {
            1nat
        } else {
            0nat
        },
    decreases coords.len(),
{
    let sub = s.spec_subsection_size();
    if coords.len() == 0 {
        assert(!coords.contains(c_e));
    } else {
        let c0 = coords[0];
        let lin = c0.x + c0.y * sub;
        assert(0 <= lin < sub * sub) by (nonlinear_arith)
            requires
                0 <= c0.x < sub,
                0 <= c0.y < sub,
                lin == c0.x + c0.y * sub,
        ;
        lemma_entity_count_concat(
            s.cells()[lin],
            buckets_of(s.cells(), coords.drop_first(), sub),
            e,
        );
        lemma_tile_entity_count(s, lin, e);
        assert forall|i: int| 0 <= i < coords.drop_first().len() implies coord_in_grid(
            #[trigger] coords.drop_first()[i],
            sub,
        ) by {
            assert(coords.drop_first()[i] == coords[i + 1]);
        }
        assert forall|i: int, j: int| 0 <= i < j < coords.drop_first().len() implies coords.drop_first()[i]
            != coords.drop_first()[j] by {
            assert(coords.drop_first()[i] == coords[i + 1]);
            assert(coords.drop_first()[j] == coords[j + 1]);
        }
        lemma_buckets_of_count(s, coords.drop_first(), e, c_e);
        if s.entity_lookup@.contains_key(e) {
            if c0 == c_e {
                assert(coords.contains(c_e));
                assert(!coords.drop_first().contains(c_e)) by {
                    if coords.drop_first().contains(c_e) {
                        let i = choose|i: int|
                            0 <= i < coords.drop_first().len() && coords.drop_first()[i] == c_e;
                        assert(coords[i + 1] == c_e);
                        assert(coords[0] != coords[i + 1]);
                    }
                }
            } else {
                if s.entity_lookup@[e].board_index == lin {
                    lemma_linear_index_injective(c0, c_e, sub);
                }
                assert(coords.contains(c_e) <==> coords.drop_first().contains(c_e)) by {
                    if coords.contains(c_e) {
                        let i = choose|i: int| 0 <= i < coords.len() && coords[i] == c_e;
                        assert(i != 0);
                        assert(coords.drop_first()[i - 1] == c_e);
                    }
                    if coords.drop_first().contains(c_e) {
                        let i = choose|i: int|
                            0 <= i < coords.drop_first().len() && coords.drop_first()[i] == c_e;
                        assert(coords[i + 1] == c_e);
                    }
                }
            }
        }
    }
}

/// Every entry yielded across the buckets of in-grid cells is a stored
/// entry, so an entry carrying a tracked handle carries its stored position.
proof fn lemma_buckets_of_positions(s: Index, coords: Seq<Coord>, e: u64)
    requires
        s.wf(),
        forall|i: int|
            0 <= i < coords.len() ==> coord_in_grid(#[trigger] coords[i], s.spec_subsection_size()),
    ensures
        forall|i: int|
            0 <= i < buckets_of(s.cells(), coords, s.spec_subsection_size()).len() && (
            #[trigger] buckets_of(s.cells(), coords, s.spec_subsection_size())[i]).entity.id == e
                ==> s.entity_lookup@.contains_key(e) && buckets_of(
                s.cells(),
                coords,
                s.spec_subsection_size(),
            )[i].position == s.entities()[e],
    decreases coords.len(),
{
    let sub = s.spec_subsection_size();
    if coords.len() > 0 {
        let c0 = coords[0];
        let lin = c0.x + c0.y * sub;
        assert(0 <= lin < sub * sub) by (nonlinear_arith)
            requires
                0 <= c0.x < sub,
                0 <= c0.y < sub,
                lin == c0.x + c0.y * sub,
        ;
        assert forall|i: int| 0 <= i < coords.drop_first().len() implies coord_in_grid(
            #[trigger] coords.drop_first()[i],
            sub,
        ) by {
            assert(coords.drop_first()[i] == coords[i + 1]);
        }
        lemma_buckets_of_positions(s, coords.drop_first(), e);
        let head = s.cells()[lin];
        let rest = buckets_of(s.cells(), coords.drop_first(), sub);
        assert forall|i: int|
            0 <= i < buckets_of(s.cells(), coords, sub).len() && (#[trigger] buckets_of(
                s.cells(),
                coords,
                sub,
            )[i]).entity.id == e implies s.entity_lookup@.contains_key(e) && buckets_of(
            s.cells(),
            coords,
            sub,
        )[i].position == s.entities()[e] by {
            if i < head.len() {
                assert(buckets_of(s.cells(), coords, sub)[i] == s.cells()[lin][i]);
            } else {
                assert(buckets_of(s.cells(), coords, sub)[i] == rest[i - head.len()]);
            }
        }
    }
}

/// Re-recording an object at a position it is already recorded at changes
/// nothing: upserting the same handle and position any number of times
/// leaves the same abstract content as upserting it once.
pub proof fn lemma_upsert_idempotent(m: Map<u64, Position>, e: u64, p: Position)
    ensures
        m.insert(e, p).insert(e, p) == m.insert(e, p),
{
    assert(m.insert(e, p).insert(e, p) =~= m.insert(e, p));
}

/// Moving an already-tracked object never changes how many objects are
/// tracked: re-inserting a present handle keeps the domain as it was.
pub proof fn lemma_move_keeps_count(m: Map<u64, Position>, e: u64, p: Position)
    requires
        m.dom().finite(),
        m.contains_key(e),
    ensures
        m.insert(e, p).dom().len() == m.dom().len(),
{
    assert(m.insert(e, p).dom() =~= m.dom());
}

/// A tracked object occupies exactly one bucket slot in the whole grid: the
/// bucket of the cell its recorded position falls in contains it, and every
/// slot anywhere that carries its handle is that one slot, holding its
/// recorded position. So after a move its old cell holds it zero times and
/// its new cell holds it once.
pub proof fn lemma_tracked_in_exactly_one_slot(s: Index, e: u64)
    requires
        s.wf(),
        s.entities().contains_key(e),
    ensures
        0 <= s.spec_cell_index(s.entities()[e]) < s.cells().len(),
        entity_count(s.cells()[s.spec_cell_index(s.entities()[e])], e) == 1,
        forall|b: int|
            0 <= b < s.cells().len() && b != s.spec_cell_index(s.entities()[e])
                ==> entity_count(#[trigger] s.cells()[b], e) == 0,
        forall|b: int, t: int|
            0 <= b < s.cells().len() && 0 <= t < s.cells()[b].len() && (#[trigger] s.cells()[b][t]).entity.id == e ==> b == s.spec_cell_index(s.entities()[e]) && s.cells()[b][t].position
                == s.entities()[e],
{
    let lookup = s.entity_lookup@;
    let bi = lookup[e].board_index as int;
    let ti = lookup[e].tile_index as int;
    assert(s.cells()[bi][ti].entity.id == e);
    assert(s.spec_cell_index(s.cells()[bi][ti].position) == bi);
    assert(s.entities()[e] == s.cells()[bi][ti].position);
    lemma_tile_entity_count(s, bi, e);
    assert forall|b: int| 0 <= b < s.cells().len() && b != bi implies entity_count(
        #[trigger] s.cells()[b],
        e,
    ) == 0 by {
        lemma_tile_entity_count(s, b, e);
    }
}

/// Once nothing is tracked, every bucket in the grid is empty.
pub proof fn lemma_untracked_all_buckets_empty(s: Index)
    requires
        s.wf(),
        s.entities() == Map::<u64, Position>::empty(),
    ensures
        forall|b: int| 0 <= b < s.cells().len() ==> (#[trigger] s.cells()[b]).len() == 0,
{
    assert forall|b: int| 0 <= b < s.cells().len() implies (#[trigger] s.cells()[b]).len() == 0 by {
        if s.cells()[b].len() > 0 {
            let e = s.cells()[b][0].entity.id;
            assert(s.entity_lookup@.contains_key(e));
            assert(s.entities().contains_key(e));
        }
    }
}

/// How many entries the first `k` buckets hold, together.
pub open spec fn population_prefix(cells: Seq<Seq<EntityPosition>>, k: int) -> nat
    decreases k,
{
    if k <= 0 {
        0
    } else {
        population_prefix(cells, k - 1) + cells[k - 1].len()
    }
}

/// The total number of entries stored across all of the grid's buckets.
pub open spec fn total_population(cells: Seq<Seq<EntityPosition>>) -> nat {
    population_prefix(cells, cells.len() as int)
}

/// The tracked handles whose bucket lies among the first `k` buckets.
spec fn tracked_below(lookup: Map<u64, EntityIndex>, k: int) -> Set<u64> {
    Set::new(|e: u64| lookup.contains_key(e) && lookup[e].board_index < k)
}

/// The tracked handles recorded in bucket `bi` at a slot below `j`.
spec fn tile_ids_prefix(lookup: Map<u64, EntityIndex>, bi: int, j: int) -> Set<u64> {
    Set::new(
        |e: u64|
            lookup.contains_key(e) && lookup[e].board_index == bi && lookup[e].tile_index < j,
    )
}

proof fn lemma_tile_ids_prefix_len(s: Index, bi: int, j: int)
    requires
        s.wf(),
        0 <= bi < s.cells().len(),
        0 <= j <= s.cells()[bi].len(),
    ensures
        tile_ids_prefix(s.entity_lookup@, bi, j).finite(),
        tile_ids_prefix(s.entity_lookup@, bi, j).len() == j,
    decreases j,
{
    let lookup = s.entity_lookup@;
    if j == 0 {
        assert(tile_ids_prefix(lookup, bi, 0) =~= Set::<u64>::empty());
    } else {
        lemma_tile_ids_prefix_len(s, bi, j - 1);
        let e = s.cells()[bi][j - 1].entity.id;
        assert(lookup.contains_key(e) && lookup[e].board_index == bi && lookup[e].tile_index == j
            - 1);
        assert(tile_ids_prefix(lookup, bi, j) =~= tile_ids_prefix(lookup, bi, j - 1).insert(e)) by {
            assert forall|e2: u64| tile_ids_prefix(lookup, bi, j).contains(e2) implies tile_ids_prefix(
                lookup,
                bi,
                j - 1,
            ).insert(e).contains(e2) by {
                if lookup[e2].tile_index == j - 1 {
                    assert(s.cells()[bi][j - 1].entity.id == e2);
                }
            }
        }
        assert(!tile_ids_prefix(lookup, bi, j - 1).contains(e));
    }
}

proof fn lemma_tracked_below_len(s: Index, k: int)
    requires
        s.wf(),
        0 <= k <= s.cells().len(),
    ensures
        tracked_below(s.entity_lookup@, k).finite(),
        tracked_below(s.entity_lookup@, k).len() == population_prefix(s.cells(), k),
    decreases k,
{
    let lookup = s.entity_lookup@;
    if k == 0 {
        assert(tracked_below(lookup, 0) =~= Set::<u64>::empty());
    } else {
        lemma_tracked_below_len(s, k - 1);
        let t_len = s.cells()[k - 1].len() as int;
        lemma_tile_ids_prefix_len(s, k - 1, t_len);
        let a = tracked_below(lookup, k - 1);
        let b = tile_ids_prefix(lookup, k - 1, t_len);
        assert(tracked_below(lookup, k) =~= a + b) by {
            assert forall|e2: u64| tracked_below(lookup, k).contains(e2) implies (a + b).contains(
                e2,
            ) by {
                if lookup[e2].board_index == k - 1 {
                    assert(lookup[e2].tile_index < s.cells()[lookup[e2].board_index as int].len());
                }
            }
        }
        assert(a.disjoint(b));
        vstd::set_lib::lemma_set_disjoint_lens(a, b);
    }
}

/// Population accounting: however upserts and removes have been interleaved,
/// the number of tracked objects equals the total number of entries across
/// the grid's buckets — each tracked object has exactly one lookup entry and
/// exactly one bucket slot.
pub proof fn lemma_population(s: Index)
    requires
        s.wf(),
    ensures
        s.entities().dom().len() == total_population(s.cells()),
{
    let lookup = s.entity_lookup@;
    let n = s.cells().len() as int;
    lemma_tracked_below_len(s, n);
    assert(tracked_below(lookup, n) =~= s.entities().dom()) by {
        assert forall|e2: u64| s.entities().dom().contains(e2) implies tracked_below(
            lookup,
            n,
        ).contains(e2) by {
            assert(lookup[e2].board_index < s.cells().len());
        }
    }
}

/// Proximity queries are exact at cell granularity: a tracked object whose
/// cell lies in the query's square of cells appears among the candidates
/// exactly once, carrying its recorded position; an untracked object, or one
/// tracked in a cell outside the square, never appears.
pub proof fn lemma_query_candidates_exact(s: Index, p: Position, radius: usize, e: u64)
    requires
        s.wf(),
    ensures
        s.entities().contains_key(e) && s.query_block(p, radius).contains(
            s.spec_cell_coord(s.entities()[e]),
        ) ==> entity_count(s.query_candidates(p, radius), e) == 1,
        !(s.entities().contains_key(e) && s.query_block(p, radius).contains(
            s.spec_cell_coord(s.entities()[e]),
        )) ==> entity_count(s.query_candidates(p, radius), e) == 0,
        forall|i: int|
            0 <= i < s.query_candidates(p, radius).len() && (#[trigger] s.query_candidates(
                p,
                radius,
            )[i]).entity.id == e ==> s.entities().contains_key(e) && s.query_candidates(p, radius)[i].position
                == s.entities()[e],
{
    let sub = s.spec_subsection_size();
    let block = s.query_block(p, radius);
    let c = s.spec_cell_coord(p);
    let d = s.spec_query_distance(radius);
    let ceiling = sub - 1;
    let min_x = clamped_low(c.x as int, d);
    let max_x = clamped_high(c.x as int, d, ceiling);
    let min_y = clamped_low(c.y as int, d);
    let max_y = clamped_high(c.y as int, d, ceiling) + 1;
    assert(0 <= min_x <= max_x <= ceiling);
    assert(0 <= min_y < max_y <= sub);
    crate::coord::lemma_coord_block_bounds(min_x, max_x, min_y, max_y);
    crate::coord::lemma_coord_block_distinct(min_x, max_x, min_y, max_y);
    assert(forall|i: int| 0 <= i < block.len() ==> coord_in_grid(#[trigger] block[i], sub));
    let c_e = if s.entities().contains_key(e) {
        s.spec_cell_coord(s.entities()[e])
    } else {
        Coord { x: 0, y: 0 }
    };
    if s.entities().contains_key(e) {
        let bi = s.entity_lookup@[e].board_index as int;
        let ti = s.entity_lookup@[e].tile_index as int;
        assert(s.cells()[bi][ti].entity.id == e);
        assert(s.spec_cell_index(s.cells()[bi][ti].position) == bi);
        assert(s.entities()[e] == s.cells()[bi][ti].position);
        assert(c_e.x + c_e.y * sub == bi);
    }
    assert(coord_in_grid(c_e, sub));
    lemma_buckets_of_count(s, block, e, c_e);
    lemma_buckets_of_positions(s, block, e);
}

/// The set of tracked handles is finite: it is the domain of the reverse
/// lookup.
proof fn lemma_entities_dom_finite(s: Index)
    ensures
        s.entities().dom().finite(),
{
    assert(s.entities().dom() =~= s.entity_lookup@.dom());
}

/// For powers of two `a` and `b` with `b < a`, `b` is positive and `a / b`
/// is at least 2: the ratio of the two spans is a whole cell size.
proof fn lemma_pow2_ratio_at_least_two(a: int, b: int)
    requires
        is_pow2(a),
        is_pow2(b),
        b < a,
    ensures
        1 <= b,
        2 * b <= a,
        2 <= a / b,
{
    broadcast use is_pow2_equiv;

    let i = choose|i: nat| pow(2, i) == a;
    let j = choose|j: nat| pow(2, j) == b;
    lemma_pow_positive(2, i);
    lemma_pow_positive(2, j);
    if i <= j {
        lemma_pow_increases(2, i, j);
        assert(false);
    }
    assert(j + 1 <= i);
    lemma_pow_increases(2, (j + 1) as nat, i);
    lemma_pow_adds(2, j, 1);
    assert(pow(2, (j + 1) as nat) == pow(2, j) * pow(2, 1));
    vstd::arithmetic::power::lemma_pow1(2);
    assert(2 * b <= a);
    assert(2 <= a / b) by (nonlinear_arith)
        requires
            1 <= b,
            2 * b <= a,
    ;
}

} // verus!
