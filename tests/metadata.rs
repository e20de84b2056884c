use std::collections::{BTreeMap, BTreeSet};

use minedmap::metadata::{
    Bounds, Config, LevelDat, LevelDatData, MetadataWriter, Spawn, TileCoordMap,
};

fn tile_map(rows: &[(i32, &[i32])]) -> TileCoordMap {
    let mut m = BTreeMap::new();
    for &(z, xs) in rows {
        m.insert(z, xs.iter().copied().collect::<BTreeSet<i32>>());
    }
    TileCoordMap(m)
}

fn config() -> Config {
    Config { level_dat_path: "w/level.dat".to_string(), metadata_path: "o/info.json".to_string() }
}

#[test]
fn empty_level_has_extreme_bounds() {
    let m = tile_map(&[]);
    let e = MetadataWriter::mipmap_entry(&m);
    assert_eq!(
        e.bounds,
        Bounds { min_x: i32::MAX, max_x: i32::MIN, min_z: i32::MAX, max_z: i32::MIN }
    );
}

#[test]
fn rows_without_tiles_bound_only_z() {
    let m = tile_map(&[(4, &[]), (-2, &[])]);
    let e = MetadataWriter::mipmap_entry(&m);
    assert_eq!(e.bounds, Bounds { min_x: i32::MAX, max_x: i32::MIN, min_z: -2, max_z: 4 });
}

#[test]
fn bounds_cover_all_tiles() {
    let m = tile_map(&[(-3, &[5, -1]), (0, &[2]), (7, &[9, 4])]);
    let e = MetadataWriter::mipmap_entry(&m);
    assert_eq!(e.bounds, Bounds { min_x: -1, max_x: 9, min_z: -3, max_z: 7 });
}

#[test]
fn spawn_comes_from_level_dat() {
    let l = LevelDat { data: LevelDatData { spawn_x: -120, spawn_z: 64 } };
    assert_eq!(MetadataWriter::spawn(&l), Spawn { x: -120, z: 64 });
}

#[test]
fn metadata_has_one_mipmap_per_level() {
    let c = config();
    let tiles = vec![tile_map(&[(0, &[0, 1])]), tile_map(&[(1, &[-4])])];
    let w = MetadataWriter::new(&c, &tiles);
    let l = LevelDat { data: LevelDatData { spawn_x: 3, spawn_z: 4 } };
    let m = w.metadata(&l);
    assert_eq!(m.spawn, Spawn { x: 3, z: 4 });
    assert_eq!(m.mipmaps.len(), 2);
    assert_eq!(m.mipmaps[0].bounds, Bounds { min_x: 0, max_x: 1, min_z: 0, max_z: 0 });
    assert_eq!(m.mipmaps[1].bounds, Bounds { min_x: -4, max_x: -4, min_z: 1, max_z: 1 });
}
