use spatial_grid::{Entity, Index, Position};

fn pos(x: f32, y: f32, z: f32) -> Position {
    Position::new(x as usize, y as usize, z as usize)
}

fn tile_count(index: &Index, board_index: usize) -> usize {
    let mut it = index.board().tile_at_index(board_index).iter();
    let mut count: usize = 0;
    while let Some(_entry) = it.next() {
        count += 1;
    }
    count
}

fn nearby_count(index: &Index, position: &Position, radius: usize) -> usize {
    let mut it = index.nearby_entities(position, radius);
    let mut count: usize = 0;
    while let Some(_entry) = it.next() {
        count += 1;
    }
    count
}

#[test]
fn the_index_system_works() {
    let index = Index::new(4096, 64);
    let near_zero = pos(1.0, 1.0, 0.0);
    let near_sixtyfour = pos(63.9, 63.9, 0.0);
    let over_one = pos(64.0, 18.0, 0.0);
    let down_one = pos(18.0, 64.0, 0.0);
    let over_one_down_one = pos(64.0, 64.0, 0.0);
    let end_of_world = pos(4095.9, 4095.9, 0.0);

    assert_eq!(index.board_index_for_vector(&near_zero), 0);

    assert_eq!(index.board_index_for_vector(&near_sixtyfour), 0);

    assert_eq!(index.board_index_for_vector(&over_one), 1);

    assert_eq!(index.board_index_for_vector(&down_one), 64);

    assert_eq!(index.board_index_for_vector(&over_one_down_one), 65);

    assert_eq!(index.board_index_for_vector(&end_of_world), 64 * 64 - 1)
}

#[test]
fn adding_entities_works() {
    let mut index = Index::new(4096, 64);
    let entity_1 = Entity::new(1);
    let entity_2 = Entity::new(2);
    let entity_3 = Entity::new(3);

    let somewhere = pos(42.0, 196.0, 12.0);
    let expected_index = index.board_index_for_vector(&somewhere);

    index.add_or_update_entity(&entity_1, &somewhere);
    index.add_or_update_entity(&entity_2, &somewhere);
    index.add_or_update_entity(&entity_3, &somewhere);

    assert_eq!(tile_count(&index, expected_index), 3);

    let mut it = index.board().tile_at_index(expected_index).iter();
    while let Some(entity_loc) = it.next() {
        assert!(entity_loc.position == somewhere);
    }
}

#[test]
fn entity_moving_boundaries() {
    let mut index = Index::new(4096, 64);
    let entity_1 = Entity::new(1);
    let entity_2 = Entity::new(2);
    let somewhere = pos(42.0, 196.0, 12.0);
    let somewhere_new = pos(42.0, 2000.0, 13.0);

    let somewhere_idx = index.board_index_for_vector(&somewhere);
    let new_idx = index.board_index_for_vector(&somewhere_new);

    index.add_or_update_entity(&entity_1, &somewhere);
    index.add_or_update_entity(&entity_2, &somewhere);
    index.add_or_update_entity(&entity_1, &somewhere_new);

    assert_eq!(tile_count(&index, somewhere_idx), 1);

    assert_eq!(tile_count(&index, new_idx), 1);

    index.add_or_update_entity(&entity_1, &somewhere);

    assert_eq!(tile_count(&index, somewhere_idx), 2);

    assert_eq!(tile_count(&index, new_idx), 0);

    index.add_or_update_entity(&entity_1, &somewhere_new);
    index.add_or_update_entity(&entity_2, &somewhere_new);

    assert_eq!(tile_count(&index, somewhere_idx), 0);

    assert_eq!(tile_count(&index, new_idx), 2);
}

#[test]
fn removing_entities() {
    let mut index = Index::new(4096, 64);
    let entity_1 = Entity::new(1);
    let entity_2 = Entity::new(2);
    let somewhere = pos(42.0, 196.0, 12.0);
    let somewhere_new = pos(42.0, 2000.0, 13.0);

    let somewhere_idx = index.board_index_for_vector(&somewhere);
    let new_idx = index.board_index_for_vector(&somewhere_new);

    index.add_or_update_entity(&entity_1, &somewhere);
    index.add_or_update_entity(&entity_2, &somewhere);

    index.add_or_update_entity(&entity_1, &somewhere_new);
    index.add_or_update_entity(&entity_2, &somewhere_new);

    index.remove(&entity_2);
    index.remove(&entity_1);

    assert_eq!(tile_count(&index, somewhere_idx), 0);

    assert_eq!(tile_count(&index, new_idx), 0);
}

#[test]
fn nearby_entities() {
    let mut index = Index::new(4096, 64);
    let entity_1 = Entity::new(1);
    let entity_2 = Entity::new(2);
    let entity_3 = Entity::new(3);
    let somewhere = pos(196.0, 196.0, 12.0);
    let somewhere_a_little_different = pos(200.0, 200.0, 42.0);
    let somewhere_new = pos(2000.0, 2000.0, 13.0);

    index.add_or_update_entity(&entity_1, &somewhere);
    index.add_or_update_entity(&entity_2, &somewhere);
    index.add_or_update_entity(&entity_3, &somewhere_new);

    assert_eq!(nearby_count(&index, &somewhere, 60), 2);

    assert_eq!(nearby_count(&index, &somewhere_new, 60), 1);

    index.add_or_update_entity(&entity_3, &somewhere_a_little_different);

    assert_eq!(nearby_count(&index, &somewhere, 60), 3);

    assert_eq!(nearby_count(&index, &somewhere_new, 60), 0);
}
