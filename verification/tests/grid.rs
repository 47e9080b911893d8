use podpacker::grid::{grid_coord, tile_index, to_tiles};
use podpacker::level::{Entity, Level, LevelValues, PackError};

fn level(background: Vec<i32>, entities: Vec<Entity>) -> Level {
    Level {
        background,
        entities,
        values: LevelValues { top_door: false, left_door: false, corner: false, clutter_level: 0 },
    }
}

fn counting() -> Vec<i32> {
    (0..64).map(|i| i % 16).collect()
}

#[test]
fn level_without_entities_keeps_its_background() {
    assert_eq!(to_tiles(&level(counting(), vec![])), Ok(counting()));
}

#[test]
fn entity_at_origin_writes_tile_zero() {
    let merged = to_tiles(&level(vec![0; 64], vec![Entity { x: 0, y: 0, id: 9 }])).unwrap();
    let mut expected = vec![0; 64];
    expected[0] = 9;
    assert_eq!(merged, expected);
}

#[test]
fn entity_at_far_corner_writes_tile_sixty_three() {
    let merged = to_tiles(&level(vec![0; 64], vec![Entity { x: 63, y: 63, id: 9 }])).unwrap();
    let mut expected = vec![0; 64];
    expected[63] = 9;
    assert_eq!(merged, expected);
}

#[test]
fn later_entity_in_a_cell_wins() {
    let entities = vec![
        Entity { x: 16, y: 24, id: 4 },
        Entity { x: 8, y: 8, id: 5 },
        Entity { x: 23, y: 31, id: 6 },
    ];
    let merged = to_tiles(&level(counting(), entities)).unwrap();
    let mut expected = counting();
    expected[3 * 8 + 2] = 6;
    expected[8 + 1] = 5;
    assert_eq!(merged, expected);
}

#[test]
fn entity_id_is_written_as_it_is() {
    let merged = to_tiles(&level(vec![0; 64], vec![Entity { x: 40, y: 8, id: 16 }])).unwrap();
    assert_eq!(merged[8 + 5], 16);
    let merged = to_tiles(&level(vec![0; 64], vec![Entity { x: 40, y: 8, id: -3 }])).unwrap();
    assert_eq!(merged[8 + 5], -3);
}

#[test]
fn entity_below_the_grid_is_refused() {
    let entities = vec![Entity { x: 0, y: 0, id: 1 }, Entity { x: 0, y: 64, id: 1 }];
    assert_eq!(
        to_tiles(&level(vec![0; 64], entities)),
        Err(PackError::EntityOutOfBounds { entity: 1 })
    );
}

#[test]
fn entity_above_the_grid_is_refused() {
    let entities = vec![Entity { x: 0, y: -1, id: 1 }];
    assert_eq!(
        to_tiles(&level(vec![0; 64], entities)),
        Err(PackError::EntityOutOfBounds { entity: 0 })
    );
}

#[test]
fn first_stray_entity_is_the_one_reported() {
    let entities = vec![
        Entity { x: 8, y: 8, id: 1 },
        Entity { x: 8, y: 8, id: 2 },
        Entity { x: 1000, y: 1000, id: 3 },
        Entity { x: -1000, y: -1000, id: 4 },
    ];
    assert_eq!(
        to_tiles(&level(vec![0; 64], entities)),
        Err(PackError::EntityOutOfBounds { entity: 2 })
    );
}

#[test]
fn background_of_another_length_is_refused() {
    assert_eq!(to_tiles(&level(vec![], vec![])), Err(PackError::GridLength { len: 0 }));
    assert_eq!(to_tiles(&level(vec![0; 63], vec![])), Err(PackError::GridLength { len: 63 }));
    let stray = vec![Entity { x: 0, y: 999, id: 1 }];
    assert_eq!(to_tiles(&level(vec![0; 65], stray)), Err(PackError::GridLength { len: 65 }));
}

#[test]
fn cells_are_eight_pixels_wide() {
    assert_eq!(grid_coord(0), 0);
    assert_eq!(grid_coord(7), 0);
    assert_eq!(grid_coord(8), 1);
    assert_eq!(grid_coord(63), 7);
    assert_eq!(grid_coord(64), 8);
    assert_eq!(grid_coord(i32::MAX), 268435455);
}

#[test]
fn cells_left_of_zero_round_down() {
    assert_eq!(grid_coord(-1), -1);
    assert_eq!(grid_coord(-8), -1);
    assert_eq!(grid_coord(-9), -2);
    assert_eq!(grid_coord(i32::MIN), -268435456);
}

#[test]
fn index_counts_rows_first() {
    assert_eq!(tile_index(&Entity { x: 0, y: 0, id: 0 }), Some(0));
    assert_eq!(tile_index(&Entity { x: 63, y: 63, id: 0 }), Some(63));
    assert_eq!(tile_index(&Entity { x: 8, y: 0, id: 0 }), Some(1));
    assert_eq!(tile_index(&Entity { x: 0, y: 8, id: 0 }), Some(8));
    assert_eq!(tile_index(&Entity { x: 17, y: 42, id: 0 }), Some(5 * 8 + 2));
}

#[test]
fn index_is_judged_by_the_cell_number_alone() {
    assert_eq!(tile_index(&Entity { x: 64, y: 0, id: 0 }), Some(8));
    assert_eq!(tile_index(&Entity { x: -1, y: 8, id: 0 }), Some(7));
    assert_eq!(tile_index(&Entity { x: 64, y: 56, id: 0 }), None);
    assert_eq!(tile_index(&Entity { x: -1, y: 0, id: 0 }), None);
    assert_eq!(tile_index(&Entity { x: 0, y: 64, id: 0 }), None);
    assert_eq!(tile_index(&Entity { x: i32::MAX, y: i32::MAX, id: 0 }), None);
    assert_eq!(tile_index(&Entity { x: i32::MIN, y: i32::MIN, id: 0 }), None);
}

#[test]
fn merging_twice_gives_the_same_grid() {
    let entities = vec![Entity { x: 9, y: 50, id: 7 }, Entity { x: 9, y: 50, id: 8 }];
    let lvl = level(counting(), entities);
    assert_eq!(to_tiles(&lvl), to_tiles(&lvl));
    assert_eq!(to_tiles(&lvl).unwrap()[6 * 8 + 1], 8);
}
