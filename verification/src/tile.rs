//! Per-cell bucket storage: the objects currently located in one grid cell,
//! with constant-time append and constant-time swap-removal by slot.

use vstd::prelude::*;

verus! {

/// An opaque, copyable handle that uniquely identifies a tracked object.
/// The index never interprets the value; it only compares it and uses it as
/// a lookup key.
#[derive(Copy, Clone, PartialEq, Eq, Structural, Debug, Hash)]
pub struct Entity {
    pub id: u64,
}

impl Entity {
    pub fn new(id: u64) -> (e: Entity)
        ensures
            e.id == id,
    {
        Entity { id }
    }
}

/// A world position, with each component already floored to a whole number of
/// world units. The cell arithmetic reads `x` and `y`; `z` is carried along
/// unchanged and ignored by the indexing.
#[derive(Copy, Clone, PartialEq, Eq, Structural, Debug)]
pub struct Position {
    pub x: usize,
    pub y: usize,
    pub z: usize,
}

impl Position {
    pub fn new(x: usize, y: usize, z: usize) -> (p: Position)
        ensures
            p.x == x,
            p.y == y,
            p.z == z,
    {
        Position { x, y, z }
    }
}

/// One object together with the position it was last reported at.
#[derive(Copy, Clone, PartialEq, Eq, Structural, Debug)]
pub struct EntityPosition {
    pub entity: Entity,
    pub position: Position,
}

/// What a bucket holds after its entry at `slot` is removed in constant
/// time: if `slot` was the last slot the bucket merely shrinks, otherwise
/// the last entry is swapped into `slot` and the bucket then shrinks.
pub open spec fn bucket_after_swap_removal(t: Seq<EntityPosition>, slot: int) -> Seq<
    EntityPosition,
> {
    if slot + 1 == t.len() {
        t.drop_last()
    } else {
        t.update(slot, t.last()).drop_last()
    }
}

/// The bucket of objects currently inside one grid cell, in insertion order
/// except where a removal has swapped the last entry into a freed slot.
pub struct Tile {
    data: Vec<EntityPosition>,
}

impl View for Tile {
    type V = Seq<EntityPosition>;

    closed spec fn view(&self) -> Seq<EntityPosition> {
        self.data@
    }
}

impl Tile {
    /// Prepares a tile that can hold `capacity` entries without reallocating.
    pub fn with_capacity(capacity: usize) -> (t: Tile)
        ensures
            t@ == Seq::<EntityPosition>::empty(),
    {
        Tile { data: Vec::with_capacity(capacity) }
    }

    /// Appends an entry and returns the slot it now occupies (the length
    /// before the append). The caller must record this slot to drive later
    /// `remove` and `update_position` calls.
    pub fn add(&mut self, entity: Entity, position: Position) -> (slot: usize)
        ensures
            slot == old(self)@.len(),
            final(self)@ == old(self)@.push(EntityPosition { entity, position }),
    {
        let next_slot = self.data.len();
        self.data.push(EntityPosition { entity, position });
        next_slot
    }

    /// Removes the entry at `slot` in constant time. If `slot` was not the
    /// last slot, the last entry is swapped into it and that entry's handle is
    /// returned: the caller must then correct wherever it recorded that
    /// object's slot. If `slot` was the last slot the bucket only shrinks and
    /// nothing is displaced.
    pub fn remove(&mut self, slot: usize) -> (displaced: Option<Entity>)
        requires
            slot < old(self)@.len(),
        ensures
            final(self)@.len() == old(self)@.len() - 1,
            final(self)@ == bucket_after_swap_removal(old(self)@, slot as int),
            slot + 1 == old(self)@.len() ==> displaced is None,
            slot + 1 < old(self)@.len() ==> displaced == Some(old(self)@.last().entity),
    {
        if self.data.len() - 1 == slot {
            self.data.pop();
            proof {
                assert(old(self)@.subrange(0, old(self)@.len() - 1) =~= old(self)@.drop_last());
            }
            None
        } else {
            self.data.swap_remove(slot);
            Some(self.data[slot].entity)
        }
    }

    /// Overwrites the position stored at `slot`; the handle and the slot
    /// itself are unchanged.
    pub fn update_position(&mut self, slot: usize, position: Position)
        requires
            slot < old(self)@.len(),
        ensures
            final(self)@ == old(self)@.update(
                slot as int,
                EntityPosition { entity: old(self)@[slot as int].entity, position },
            ),
    {
        let entity = self.data[slot].entity;
        let elem = &mut self.data[slot];
        *elem = EntityPosition { entity, position };
    }

    /// Starts a fresh read-only traversal of the bucket's entries, in slot
    /// order. Each call yields an independent traversal over the live data.
    pub fn iter<'a>(&'a self) -> (it: TileIter<'a>)
        ensures
            it.wf(),
            it.remaining() == self@,
    {
        let it = TileIter { tile: self, cursor: 0 };
        proof {
            assert(it.remaining() =~= self@);
        }
        it
    }
}

/// A cursor over one tile's entries. Yields each entry once, in slot order.
pub struct TileIter<'a> {
    tile: &'a Tile,
    cursor: usize,
}

impl<'a> TileIter<'a> {
    pub closed spec fn wf(self) -> bool {
        self.cursor <= self.tile@.len()
    }

    /// The entries this traversal has not yet yielded.
    pub closed spec fn remaining(self) -> Seq<EntityPosition> {
        self.tile@.skip(self.cursor as int)
    }

    /// Yields the next entry, or `None` once every entry has been yielded.
    pub fn next(&mut self) -> (r: Option<EntityPosition>)
        requires
            old(self).wf(),
        ensures
            final(self).wf(),
            r matches Some(ep) ==> {
                &&& old(self).remaining().len() > 0
                &&& ep == old(self).remaining()[0]
                &&& final(self).remaining() == old(self).remaining().drop_first()
            },
            r is None ==> {
                &&& old(self).remaining().len() == 0
                &&& *final(self) == *old(self)
            },
    {
        if self.cursor < self.tile.data.len() {
            let ep = self.tile.data[self.cursor];
            self.cursor = self.cursor + 1;
            proof {
                assert(final(self).remaining() =~= old(self).remaining().drop_first());
            }
            Some(ep)
        } else {
            None
        }
    }
}

} // verus!
