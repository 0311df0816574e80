use spatial_grid::{Entity, EntityPosition, Index, Position, Tile};

fn tile_count(index: &Index, board_index: usize) -> usize {
    let mut it = index.board().tile_at_index(board_index).iter();
    let mut count: usize = 0;
    while let Some(_entry) = it.next() {
        count += 1;
    }
    count
}

fn total_population(index: &Index, subsection_size: usize) -> usize {
    let mut total: usize = 0;
    let mut i: usize = 0;
    while i < subsection_size * subsection_size {
        total += tile_count(index, i);
        i += 1;
    }
    total
}

fn tile_entries(index: &Index, board_index: usize) -> Vec<EntityPosition> {
    let mut it = index.board().tile_at_index(board_index).iter();
    let mut entries: Vec<EntityPosition> = Vec::new();
    while let Some(entry) = it.next() {
        entries.push(entry);
    }
    entries
}

fn nearby_entries(index: &Index, position: &Position, radius: usize) -> Vec<EntityPosition> {
    let mut it = index.nearby_entities(position, radius);
    let mut entries: Vec<EntityPosition> = Vec::new();
    while let Some(entry) = it.next() {
        entries.push(entry);
    }
    entries
}

#[test]
fn upsert_same_position_is_idempotent() {
    let mut index = Index::new(4096, 64);
    let entity = Entity::new(7);
    let somewhere = Position::new(100, 100, 0);
    let cell = index.board_index_for_vector(&somewhere);

    let mut i = 0;
    while i < 5 {
        index.add_or_update_entity(&entity, &somewhere);
        i += 1;
    }

    assert_eq!(tile_count(&index, cell), 1);
    assert_eq!(total_population(&index, 64), 1);
}

#[test]
fn moving_keeps_exactly_one_occurrence() {
    let mut index = Index::new(4096, 64);
    let entity = Entity::new(9);
    let pos_a = Position::new(10, 10, 0);
    let pos_b = Position::new(3000, 3000, 0);
    let cell_a = index.board_index_for_vector(&pos_a);
    let cell_b = index.board_index_for_vector(&pos_b);

    index.add_or_update_entity(&entity, &pos_a);
    index.add_or_update_entity(&entity, &pos_b);

    assert_eq!(tile_count(&index, cell_a), 0);
    assert_eq!(tile_count(&index, cell_b), 1);
    assert_eq!(total_population(&index, 64), 1);

    let entries = tile_entries(&index, cell_b);
    assert_eq!(entries.len(), 1);
    assert!(entries[0].entity == entity);
    assert!(entries[0].position == pos_b);
}

#[test]
fn swap_displacement_corrects_the_moved_slot() {
    let mut index = Index::new(4096, 64);
    let a = Entity::new(1);
    let b = Entity::new(2);
    let c = Entity::new(3);
    let here = Position::new(500, 500, 0);
    let cell = index.board_index_for_vector(&here);

    index.add_or_update_entity(&a, &here);
    index.add_or_update_entity(&b, &here);
    index.add_or_update_entity(&c, &here);

    // Removing the first-inserted object swaps the last-inserted one into
    // its slot; the reverse index must now find that object at the new slot.
    index.remove(&a);
    let after_a = tile_entries(&index, cell);
    assert_eq!(after_a.len(), 2);
    assert!(after_a[0].entity == c);
    assert!(after_a[1].entity == b);

    // Removing the displaced object must remove it, not whatever sits in its
    // stale slot.
    index.remove(&c);
    let after_c = tile_entries(&index, cell);
    assert_eq!(after_c.len(), 1);
    assert!(after_c[0].entity == b);

    index.remove(&b);
    assert_eq!(tile_count(&index, cell), 0);
}

#[test]
fn population_matches_under_interleaving() {
    let mut index = Index::new(4096, 64);
    let e1 = Entity::new(1);
    let e2 = Entity::new(2);
    let e3 = Entity::new(3);
    let e4 = Entity::new(4);
    let p1 = Position::new(10, 10, 0);
    let p2 = Position::new(100, 100, 0);
    let p3 = Position::new(10, 10, 0);
    let p4 = Position::new(4000, 4000, 0);

    index.add_or_update_entity(&e1, &p1);
    assert_eq!(total_population(&index, 64), 1);
    index.add_or_update_entity(&e2, &p2);
    index.add_or_update_entity(&e3, &p3);
    assert_eq!(total_population(&index, 64), 3);
    index.remove(&e1);
    assert_eq!(total_population(&index, 64), 2);
    index.add_or_update_entity(&e2, &p4);
    assert_eq!(total_population(&index, 64), 2);
    index.add_or_update_entity(&e4, &p4);
    index.add_or_update_entity(&e1, &p2);
    assert_eq!(total_population(&index, 64), 4);
    index.remove(&e3);
    index.remove(&e3);
    assert_eq!(total_population(&index, 64), 3);
}

#[test]
fn removing_everything_empties_every_bucket() {
    let mut index = Index::new(4096, 64);
    let e1 = Entity::new(1);
    let e2 = Entity::new(2);
    let e3 = Entity::new(3);

    index.add_or_update_entity(&e1, &Position::new(10, 10, 0));
    index.add_or_update_entity(&e2, &Position::new(2000, 50, 0));
    index.add_or_update_entity(&e3, &Position::new(4095, 4095, 0));
    index.add_or_update_entity(&e1, &Position::new(300, 300, 0));

    index.remove(&e1);
    index.remove(&e2);
    index.remove(&e3);

    assert_eq!(total_population(&index, 64), 0);
    let mut i: usize = 0;
    while i < 64 * 64 {
        assert_eq!(tile_count(&index, i), 0);
        i += 1;
    }
}

#[test]
fn query_on_empty_index_yields_nothing() {
    let index = Index::new(4096, 64);
    assert_eq!(nearby_entries(&index, &Position::new(196, 196, 0), 60).len(), 0);
}

#[test]
fn query_yields_stored_positions() {
    let mut index = Index::new(4096, 64);
    let e1 = Entity::new(1);
    let e2 = Entity::new(2);
    let p1 = Position::new(196, 196, 12);
    let p2 = Position::new(200, 210, 0);

    index.add_or_update_entity(&e1, &p1);
    index.add_or_update_entity(&e2, &p2);

    let entries = nearby_entries(&index, &p1, 60);
    assert_eq!(entries.len(), 2);
    let mut saw_1 = false;
    let mut saw_2 = false;
    for entry in entries {
        if entry.entity == e1 {
            assert!(entry.position == p1);
            saw_1 = true;
        }
        if entry.entity == e2 {
            assert!(entry.position == p2);
            saw_2 = true;
        }
    }
    assert!(saw_1 && saw_2);
}

#[test]
fn tile_add_remove_and_update() {
    let mut tile = Tile::with_capacity(4);
    let a = Entity::new(1);
    let b = Entity::new(2);
    let c = Entity::new(3);

    assert_eq!(tile.add(a, Position::new(1, 1, 0)), 0);
    assert_eq!(tile.add(b, Position::new(2, 2, 0)), 1);
    assert_eq!(tile.add(c, Position::new(3, 3, 0)), 2);

    // Removing a middle slot hands back the displaced last entry.
    let displaced = tile.remove(0);
    assert!(displaced == Some(c));

    // Removing the last slot displaces nothing.
    let displaced_last = tile.remove(1);
    assert!(displaced_last == None);

    tile.update_position(0, Position::new(9, 9, 9));
    let mut it = tile.iter();
    let only = it.next().unwrap();
    assert!(only.entity == c);
    assert!(only.position == Position::new(9, 9, 9));
    assert!(it.next() == None);
}
