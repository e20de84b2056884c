//! The data of the viewer metadata file: tile bounds of each mipmap level
//! and the spawn point.

use std::collections::{BTreeMap, BTreeSet};
use vstd::prelude::*;
use vstd::std_specs::iter::IteratorSpec;

verus! {

broadcast use {vstd::std_specs::btree::group_btree_axioms, vstd::laws_cmp::group_laws_cmp};

/// Tile coordinates present at one mipmap level: each Z coordinate with
/// the X coordinates populated in it.
#[derive(Debug)]
pub struct TileCoordMap(pub BTreeMap<i32, BTreeSet<i32>>);

/// Minimum and maximum X and Z tile coordinates of a mipmap level.
#[derive(Clone, Copy, Debug, PartialEq, Eq, Structural)]
pub struct Bounds {
    pub min_x: i32,
    pub max_x: i32,
    pub min_z: i32,
    pub max_z: i32,
}

/// Mipmap level information of the metadata file.
#[derive(Debug)]
pub struct Mipmap<'t> {
    pub bounds: Bounds,
    pub regions: &'t TileCoordMap,
}

/// Initial spawn point for new players.
#[derive(Clone, Copy, Debug, PartialEq, Eq, Structural)]
pub struct Spawn {
    pub x: i32,
    pub z: i32,
}

/// The viewer metadata: tiles of each mipmap level and the spawn point.
#[derive(Debug)]
pub struct Metadata<'t> {
    pub mipmaps: Vec<Mipmap<'t>>,
    pub spawn: Spawn,
}

/// The fields of the world's `level.dat` that the metadata needs.
#[derive(Clone, Copy, Debug, PartialEq, Eq, Structural)]
pub struct LevelDatData {
    pub spawn_x: i32,
    pub spawn_z: i32,
}

/// The world's `level.dat`.
#[derive(Clone, Copy, Debug, PartialEq, Eq, Structural)]
pub struct LevelDat {
    pub data: LevelDatData,
}

/// Paths the metadata writer reads from and writes to.
#[derive(Debug)]
pub struct Config {
    pub level_dat_path: String,
    pub metadata_path: String,
}

/// `lo` and `hi` bound the values of `s` tightly: each is attained, or,
/// where `s` is empty, `lo` is `i32::MAX` and `hi` is `i32::MIN`.
pub open spec fn tight(s: Set<i32>, lo: i32, hi: i32) -> bool {
    &&& forall|v: i32| #[trigger] s.contains(v) ==> lo <= v <= hi
    &&& ((forall|v: i32| !s.contains(v)) ==> lo == i32::MAX && hi == i32::MIN)
    &&& (lo == i32::MAX || s.contains(lo))
    &&& (hi == i32::MIN || s.contains(hi))
}

/// Taking one more value in keeps tight bounds tight.
proof fn lemma_tight_insert(s: Set<i32>, lo: i32, hi: i32, v: i32)
    requires
        tight(s, lo, hi),
    ensures
        tight(s.insert(v), if v < lo { v } else { lo }, if v > hi { v } else { hi }),
{
    let t = s.insert(v);
    assert(t.contains(v));
    if lo != i32::MAX {
        assert(t.contains(lo));
    }
    if hi != i32::MIN {
        assert(t.contains(hi));
    }
}

/// The X coordinates populated anywhere in a tile map.
pub open spec fn all_x(m: Map<i32, BTreeSet<i32>>) -> Set<i32> {
    Set::new(|x: i32| exists|z: i32| m.contains_key(z) && #[trigger] m[z]@.contains(x))
}

/// `b` holds the tight bounds of the Z and of the X coordinates of a tile
/// map.
pub open spec fn is_bounds_of(m: Map<i32, BTreeSet<i32>>, b: Bounds) -> bool {
    tight(m.dom(), b.min_z, b.max_z) && tight(all_x(m), b.min_x, b.max_x)
}

/// Builds the metadata writer's view of the world.
pub struct MetadataWriter<'a> {
    pub config: &'a Config,
    pub tiles: &'a [TileCoordMap],
}

impl<'a> MetadataWriter<'a> {
    /// Creates a new metadata writer.
    pub fn new(config: &'a Config, tiles: &'a [TileCoordMap]) -> (r: Self)
        ensures
            r.config == config,
            r.tiles@ == tiles@,
    {
        MetadataWriter { config, tiles }
    }

    /// The bounds of the populated tiles of one mipmap level, with the level.
    pub fn mipmap_entry(regions: &TileCoordMap) -> (r: Mipmap<'_>)
        ensures
            is_bounds_of(regions.0@, r.bounds),
            r.regions == regions,
    {
        let ghost m = regions.0@;
        let ghost rows = vstd::std_specs::btree::spec_btree_map_iter(&regions.0).remaining();
        let mut b = Bounds { min_x: i32::MAX, max_x: i32::MIN, min_z: i32::MAX, max_z: i32::MIN };
        let ghost mut zs: Set<i32> = Set::empty();
        let ghost mut xs_seen: Set<i32> = Set::empty();
        for kv in it: regions.0.iter()
            invariant
                it.seq() == rows,
                m == regions.0@,
                zs.subset_of(m.dom()),
                xs_seen.subset_of(all_x(m)),
                forall|i: int| 0 <= i < it.index() ==> zs.contains(*#[trigger] rows[i].0),
                forall|i: int, x: i32|
                    #![trigger rows[i].1@.contains(x)]
                    0 <= i < it.index() && rows[i].1@.contains(x) ==> xs_seen.contains(x),
                tight(zs, b.min_z, b.max_z),
                tight(xs_seen, b.min_x, b.max_x),
        {
            let z = *kv.0;
            let xs = kv.1;
            let ghost i = it.index();
            assert(kv == rows[i]);
            assert(m.contains_key(z) && m[z] == *xs);
            proof {
                lemma_tight_insert(zs, b.min_z, b.max_z, z);
                zs = zs.insert(z);
            }
            if z < b.min_z {
                b.min_z = z;
            }
            if z > b.max_z {
                b.max_z = z;
            }
            let ghost row = vstd::std_specs::btree::spec_btree_keys_iter(xs).remaining();
            assert(row.unref().to_set() == xs@);
            for x in it2: xs.iter()
                invariant
                    it2.seq() == row,
                    row.unref().to_set() == xs@,
                    m.contains_key(z) && m[z]@ == xs@,
                    xs_seen.subset_of(all_x(m)),
                    forall|j: int| 0 <= j < it2.index() ==> xs_seen.contains(*#[trigger] row[j]),
                    tight(xs_seen, b.min_x, b.max_x),
                    tight(zs, b.min_z, b.max_z),
                    forall|k: int, y: i32|
                        #![trigger rows[k].1@.contains(y)]
                        0 <= k < i && rows[k].1@.contains(y) ==> xs_seen.contains(y),
            {
                let ghost j = it2.index();
                assert(x == row[j]);
                assert(row.unref().to_set().contains(*x));
                assert(all_x(m).contains(*x));
                proof {
                    lemma_tight_insert(xs_seen, b.min_x, b.max_x, *x);
                    xs_seen = xs_seen.insert(*x);
                }
                if *x < b.min_x {
                    b.min_x = *x;
                }
                if *x > b.max_x {
                    b.max_x = *x;
                }
            }
            assert forall|k: int, x: i32|
                #![trigger rows[k].1@.contains(x)]
                0 <= k <= i && rows[k].1@.contains(x) implies xs_seen.contains(x) by {
                if k == i {
                    assert(row.unref().to_set().contains(x));
                    let j = choose|j: int| 0 <= j < row.unref().len() && row.unref()[j] == x;
                    assert(*row[j] == x);
                }
            }
        }
        assert(zs =~= m.dom()) by {
            assert forall|k: i32| m.contains_key(k) implies zs.contains(k) by {
                assert(rows.contains((&k, &m[k])));
                let i = choose|i: int| 0 <= i < rows.len() && rows[i] == (&k, &m[k]);
                assert(zs.contains(*rows[i].0));
            }
        }
        assert(xs_seen =~= all_x(m)) by {
            assert forall|x: i32| all_x(m).contains(x) implies xs_seen.contains(x) by {
                let k = choose|k: i32| m.contains_key(k) && #[trigger] m[k]@.contains(x);
                assert(rows.contains((&k, &m[k])));
                let i = choose|i: int| 0 <= i < rows.len() && rows[i] == (&k, &m[k]);
                assert(rows[i].1@.contains(x));
            }
        }
        Mipmap { bounds: b, regions }
    }

    /// The spawn point recorded in `level.dat`.
    pub fn spawn(level_dat: &LevelDat) -> (r: Spawn)
        ensures
            r.x == level_dat.data.spawn_x,
            r.z == level_dat.data.spawn_z,
    {
        Spawn { x: level_dat.data.spawn_x, z: level_dat.data.spawn_z }
    }

    /// The metadata of the world: one mipmap entry per tile map, in order,
    /// and the spawn point of `level_dat`.
    pub fn metadata(&self, level_dat: &LevelDat) -> (r: Metadata<'a>)
        ensures
            r.spawn == Self::spawn_of(level_dat),
            r.mipmaps@.len() == self.tiles@.len(),
            forall|k: int|
                0 <= k < self.tiles@.len() ==> is_bounds_of(
                    self.tiles@[k].0@,
                    #[trigger] r.mipmaps@[k].bounds,
                )
                    && *r.mipmaps@[k].regions == self.tiles@[k],
    {
        let mut mipmaps: Vec<Mipmap<'a>> = Vec::new();
        let mut k: usize = 0;
        while k < self.tiles.len()
            invariant
                k <= self.tiles@.len(),
                mipmaps@.len() == k,
                forall|m: int|
                    0 <= m < k ==> is_bounds_of(self.tiles@[m].0@, #[trigger] mipmaps@[m].bounds)
                        && *mipmaps@[m].regions == self.tiles@[m],
            decreases self.tiles@.len() - k,
        {
            let tiles: &'a [TileCoordMap] = self.tiles;
            mipmaps.push(Self::mipmap_entry(&tiles[k]));
            k = k + 1;
        }
        Metadata { mipmaps, spawn: Self::spawn(level_dat) }
    }

    /// The spawn point of a `level.dat`.
    pub open spec fn spawn_of(level_dat: &LevelDat) -> Spawn {
        Spawn { x: level_dat.data.spawn_x, z: level_dat.data.spawn_z }
    }
}

} // verus!
