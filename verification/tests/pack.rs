use podpacker::level::{LevelValues, PackError};
use podpacker::pack::to_binary;

fn plain(clutter_level: i32) -> LevelValues {
    LevelValues { top_door: false, left_door: false, corner: false, clutter_level }
}

fn unpack(record: &[u8; 33]) -> (Vec<i32>, LevelValues) {
    let mut tiles = Vec::new();
    for k in 0..32 {
        tiles.push((record[k] >> 4) as i32);
        tiles.push((record[k] & 0x0F) as i32);
    }
    let flags = record[32];
    let values = LevelValues {
        top_door: (flags >> 7) & 1 == 1,
        left_door: (flags >> 6) & 1 == 1,
        corner: (flags >> 5) & 1 == 1,
        clutter_level: (flags & 0x1F) as i32,
    };
    (tiles, values)
}

#[test]
fn pair_of_zeros_packs_to_0x00() {
    let record = to_binary(&[0; 64], plain(0)).unwrap();
    assert_eq!(record, [0u8; 33]);
}

#[test]
fn pair_of_fifteens_packs_to_0xff() {
    let record = to_binary(&[15; 64], plain(0)).unwrap();
    for k in 0..32 {
        assert_eq!(record[k], 0xFF);
    }
    assert_eq!(record[32], 0);
}

#[test]
fn fifteen_then_zero_packs_to_0xf0() {
    let mut tiles = [0i32; 64];
    tiles[0] = 15;
    tiles[1] = 0;
    tiles[2] = 0;
    tiles[3] = 15;
    tiles[62] = 1;
    tiles[63] = 2;
    let record = to_binary(&tiles, plain(0)).unwrap();
    assert_eq!(record[0], 0xF0);
    assert_eq!(record[1], 0x0F);
    assert_eq!(record[31], 0x12);
}

#[test]
fn every_pair_packs_high_then_low() {
    for a in 0..16 {
        for b in 0..16 {
            let mut tiles = [0i32; 64];
            tiles[10] = a;
            tiles[11] = b;
            let record = to_binary(&tiles, plain(0)).unwrap();
            assert_eq!(record[5], ((a as u8) << 4) | (b as u8));
            assert_eq!(record[5] as i32, 16 * a + b);
        }
    }
}

#[test]
fn flags_byte_holds_doors_corner_and_clutter() {
    let tiles = [0i32; 64];
    let case = |top_door, left_door, corner, clutter_level| {
        to_binary(&tiles, LevelValues { top_door, left_door, corner, clutter_level }).unwrap()[32]
    };
    assert_eq!(case(false, false, false, 0), 0x00);
    assert_eq!(case(true, false, false, 0), 0x80);
    assert_eq!(case(false, true, false, 0), 0x40);
    assert_eq!(case(false, false, true, 0), 0x20);
    assert_eq!(case(false, false, false, 31), 0x1F);
    assert_eq!(case(true, true, true, 31), 0xFF);
    assert_eq!(case(true, false, true, 3), 0xA3);
    assert_eq!(case(false, true, false, 17), 0x51);
}

#[test]
fn record_reads_back_to_grid_and_settings() {
    let mut tiles = Vec::new();
    for i in 0..64 {
        tiles.push((i * 7 + 3) % 16);
    }
    for clutter_level in [0, 1, 9, 16, 31] {
        for bits in 0..8 {
            let values = LevelValues {
                top_door: bits & 1 == 1,
                left_door: bits & 2 == 2,
                corner: bits & 4 == 4,
                clutter_level,
            };
            let record = to_binary(&tiles, values).unwrap();
            assert_eq!(record.len(), 33);
            let (read_tiles, read_values) = unpack(&record);
            assert_eq!(read_tiles, tiles);
            assert_eq!(read_values, values);
        }
    }
}

#[test]
fn tile_of_sixteen_is_refused() {
    let mut tiles = [3i32; 64];
    tiles[41] = 16;
    assert_eq!(
        to_binary(&tiles, plain(0)),
        Err(PackError::TileOutOfRange { index: 41, tile: 16 })
    );
}

#[test]
fn negative_tile_is_refused() {
    let mut tiles = [3i32; 64];
    tiles[0] = -1;
    assert_eq!(
        to_binary(&tiles, plain(0)),
        Err(PackError::TileOutOfRange { index: 0, tile: -1 })
    );
}

#[test]
fn first_unfit_tile_is_the_one_reported() {
    let mut tiles = [3i32; 64];
    tiles[63] = 99;
    tiles[20] = -5;
    tiles[21] = 16;
    assert_eq!(
        to_binary(&tiles, plain(40)),
        Err(PackError::TileOutOfRange { index: 20, tile: -5 })
    );
}

#[test]
fn clutter_of_thirty_two_is_refused() {
    assert_eq!(
        to_binary(&[0; 64], plain(32)),
        Err(PackError::ClutterOutOfRange { clutter_level: 32 })
    );
}

#[test]
fn negative_clutter_is_refused() {
    assert_eq!(
        to_binary(&[0; 64], plain(-1)),
        Err(PackError::ClutterOutOfRange { clutter_level: -1 })
    );
}

#[test]
fn grid_of_another_length_is_refused() {
    assert_eq!(to_binary(&[], plain(0)), Err(PackError::GridLength { len: 0 }));
    assert_eq!(to_binary(&[1; 63], plain(0)), Err(PackError::GridLength { len: 63 }));
    assert_eq!(to_binary(&[1; 65], plain(0)), Err(PackError::GridLength { len: 65 }));
    assert_eq!(to_binary(&[1; 66], plain(0)), Err(PackError::GridLength { len: 66 }));
    assert_eq!(to_binary(&[99; 62], plain(99)), Err(PackError::GridLength { len: 62 }));
}

#[test]
fn packing_twice_gives_the_same_record() {
    let mut tiles = [0i32; 64];
    for i in 0..64 {
        tiles[i] = (i as i32 * 5) % 16;
    }
    let values = LevelValues { top_door: true, left_door: true, corner: false, clutter_level: 12 };
    assert_eq!(to_binary(&tiles, values), to_binary(&tiles, values));
}
