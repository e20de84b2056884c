//! Decoding of region files: the sector table, chunk payloads and the
//! sector-by-sector walk that matches table entries to file positions.

use std::collections::HashMap;

use crate::nbt::{nbt_depth, nbt_depth_within, MAX_NBT_DEPTH};
use vstd::prelude::*;

verus! {

/// fastnbt's generic NBT value, carried through as the decoded chunk.
#[verifier::external_type_specification]
#[verifier::external_body]
pub struct ExNbtValue(fastnbt::Value);

/// fastnbt's decoding error, mapped to `RegionError::Nbt`.
#[verifier::external_type_specification]
#[verifier::external_body]
pub struct ExNbtError(fastnbt::error::Error);

broadcast use vstd::std_specs::hash::group_hash_axioms;

/// Size of one sector of a region file, in bytes.
pub const BLOCKSIZE: usize = 4096;

/// What can go wrong while decoding a region file.
#[derive(Clone, Copy, Debug, PartialEq, Eq, Structural)]
pub enum RegionError {
    /// The chunk block is too short to hold its 4-byte length prefix.
    ChunkSizeTruncated,
    /// The length prefix asks for more bytes than the chunk block holds.
    ChunkDataTruncated,
    /// The format tag is not the zlib marker.
    UnknownFormat,
    /// The compressed stream is corrupt.
    Decompress,
    /// The decompressed bytes are not a valid NBT record.
    Nbt,
    /// A second table entry claims an already decoded chunk position.
    DuplicateChunk { x: u8, z: u8 },
    /// The file ends before the region header does.
    HeaderTruncated,
    /// The file ends inside a chunk block.
    ChunkDataMissing,
    /// The walk has reached the largest table offset while entries remain
    /// behind it: they lie inside the blocks of other chunks.
    UnreachableChunk,
}

/// Format tag of zlib-compressed chunk data.
pub const ZLIB_FORMAT: u8 = 2;

/// Where a chunk sits in its region and how many sectors its block takes.
#[derive(Clone, Copy, Debug, PartialEq, Eq, Structural)]
pub struct ChunkDesc {
    pub x: u8,
    pub z: u8,
    pub len: u8,
}

/// The 3-byte big-endian sector offset stored in table slot `slot`.
pub open spec fn slot_offset(h: Seq<u8>, slot: int) -> u32 {
    (h[4 * slot] as int * 65536 + h[4 * slot + 1] as int * 256 + h[4 * slot + 2] as int) as u32
}

/// The chunk described by table slot `slot`; slots run x-minor, z-major.
pub open spec fn slot_desc(h: Seq<u8>, slot: int) -> ChunkDesc {
    ChunkDesc { x: (slot % 32) as u8, z: (slot / 32) as u8, len: h[4 * slot + 3] }
}

/// The sector table built from the first `n` slots: every slot with a
/// nonzero offset is entered under that offset, later slots replacing
/// earlier ones with the same offset.
pub open spec fn table_prefix(h: Seq<u8>, n: nat) -> Map<u32, ChunkDesc>
    decreases n,
{
    if n == 0 {
        Map::empty()
    } else {
        let prev = table_prefix(h, (n - 1) as nat);
        let s = n - 1;
        if slot_offset(h, s) == 0 {
            prev
        } else {
            prev.insert(slot_offset(h, s), slot_desc(h, s))
        }
    }
}

/// The sector table of a region header: all 1024 slots.
pub open spec fn sector_table(h: Seq<u8>) -> Map<u32, ChunkDesc> {
    table_prefix(h, 1024)
}

/// Every entry of a table built from `n` slots has a nonzero offset below
/// 2^24 and a position inside the region.
pub proof fn lemma_table_prefix_entries(h: Seq<u8>, n: nat)
    requires
        n <= 1024,
        h.len() == 4096,
    ensures
        forall|o: u32| #[trigger]
            table_prefix(h, n).contains_key(o) ==> 0 < o < 0x100_0000 && table_prefix(h, n)[o].x
                < 32 && table_prefix(h, n)[o].z < 32,
    decreases n,
{
    if n > 0 {
        lemma_table_prefix_entries(h, (n - 1) as nat);
        let s = n - 1;
        let (a, b, c) = (h[4 * s] as int, h[4 * s + 1] as int, h[4 * s + 2] as int);
        assert(0 <= a * 65536 + b * 256 + c < 0x100_0000) by (nonlinear_arith)
            requires
                0 <= a < 256,
                0 <= b < 256,
                0 <= c < 256,
        ;
        assert(s % 32 < 32 && s / 32 < 32);
        assert(slot_offset(h, s) < 0x100_0000);
        assert(slot_desc(h, s).x < 32);
        assert(slot_desc(h, s).z < 32);
        let prev = table_prefix(h, (n - 1) as nat);
        let t = table_prefix(h, n);
        assert(t == if slot_offset(h, s) == 0 {
            prev
        } else {
            prev.insert(slot_offset(h, s), slot_desc(h, s))
        });
        assert forall|o: u32| #[trigger] t.contains_key(o) implies 0 < o < 0x100_0000 && t[o].x
            < 32 && t[o].z < 32 by {
            if o != slot_offset(h, s) || slot_offset(h, s) == 0 {
                assert(prev.contains_key(o));
            }
        }
    }
}

/// Each entry of a table built from `n` slots comes from the slot of its
/// own position, and that slot holds the entry's offset.
pub proof fn lemma_table_prefix_slots(h: Seq<u8>, n: nat)
    requires
        n <= 1024,
        h.len() == 4096,
    ensures
        forall|o: u32| #[trigger]
            table_prefix(h, n).contains_key(o) ==> {
                let d = table_prefix(h, n)[o];
                let s = d.z as int * 32 + d.x as int;
                &&& 0 <= s < n
                &&& slot_offset(h, s) == o
                &&& d == slot_desc(h, s)
            },
    decreases n,
{
    if n > 0 {
        lemma_table_prefix_slots(h, (n - 1) as nat);
        let s = n - 1;
        let prev = table_prefix(h, (n - 1) as nat);
        let t = table_prefix(h, n);
        assert(t == if slot_offset(h, s) == 0 {
            prev
        } else {
            prev.insert(slot_offset(h, s), slot_desc(h, s))
        });
        let d = slot_desc(h, s);
        assert(d.z as int * 32 + d.x as int == s);
        assert forall|o: u32| #[trigger] t.contains_key(o) implies {
            let e = t[o];
            let k = e.z as int * 32 + e.x as int;
            &&& 0 <= k < n
            &&& slot_offset(h, k) == o
            &&& e == slot_desc(h, k)
        } by {
            if o != slot_offset(h, s) || slot_offset(h, s) == 0 {
                assert(prev.contains_key(o));
            }
        }
    }
}

/// No two entries of a sector table name the same position.
pub open spec fn positions_distinct(t: Map<u32, ChunkDesc>) -> bool {
    forall|o1: u32, o2: u32|
        #![trigger t[o1], t[o2]]
        t.contains_key(o1) && t.contains_key(o2) && position(t[o1]) == position(t[o2]) ==> o1 == o2
}

/// A region header names each chunk position in one slot only, so its
/// sector table never holds two entries for one position.
pub proof fn lemma_sector_table_positions_distinct(h: Seq<u8>)
    requires
        h.len() == 4096,
    ensures
        positions_distinct(sector_table(h)),
{
    lemma_table_prefix_slots(h, 1024);
}

/// The chunk blocks of a table do not overlap: each entry's sectors end
/// before any other entry's begin, or begin after they end.
pub open spec fn blocks_disjoint(t: Map<u32, ChunkDesc>) -> bool {
    forall|o1: u32, o2: u32|
        #![trigger t[o1], t[o2]]
        t.contains_key(o1) && t.contains_key(o2) && o1 != o2 ==> o1 + t[o1].len <= o2 || o2
            + t[o2].len <= o1
}

/// The largest offset among the first `n` slots, 0 if there is none.
pub open spec fn max_slot_offset(h: Seq<u8>, n: nat) -> u32
    decreases n,
{
    if n == 0 {
        0
    } else {
        let m = max_slot_offset(h, (n - 1) as nat);
        let o = slot_offset(h, n - 1);
        if o > m {
            o
        } else {
            m
        }
    }
}

/// No entry of the sector table lies past the largest slot offset.
pub proof fn lemma_table_within_max_offset(h: Seq<u8>)
    requires
        h.len() == 4096,
    ensures
        forall|o: u32| #[trigger] sector_table(h).contains_key(o) ==> o <= max_slot_offset(h, 1024),
{
    lemma_table_prefix_slots(h, 1024);
    lemma_max_slot_offset_bounds(h, 1024);
    assert forall|o: u32| #[trigger] sector_table(h).contains_key(o) implies o <= max_slot_offset(
        h,
        1024,
    ) by {
        let d = sector_table(h)[o];
        let s = d.z as int * 32 + d.x as int;
        assert(slot_offset(h, s) == o);
    }
}

proof fn lemma_max_slot_offset_bounds(h: Seq<u8>, n: nat)
    ensures
        forall|s: int| 0 <= s < n ==> #[trigger] slot_offset(h, s) <= max_slot_offset(h, n),
    decreases n,
{
    if n > 0 {
        lemma_max_slot_offset_bounds(h, (n - 1) as nat);
    }
}

/// The largest sector offset a region header names, 0 if it names none.
fn header_last_offset(header: &[u8; BLOCKSIZE]) -> (r: u32)
    ensures
        r == max_slot_offset(header@, 1024),
{
    let mut last: u32 = 0;
    let mut slot: usize = 0;
    while slot < 1024
        invariant
            slot <= 1024,
            header@.len() == 4096,
            last == max_slot_offset(header@, slot as nat),
        decreases 1024 - slot,
    {
        let base: usize = 4 * slot;
        let offset: u32 = (header[base] as u32) * 65536 + (header[base + 1] as u32) * 256
            + (header[base + 2] as u32);
        if offset > last {
            last = offset;
        }
        slot = slot + 1;
    }
    last
}

/// Parses a region header into its sector table.
pub fn parse_header(header: &[u8; BLOCKSIZE]) -> (r: HashMap<u32, ChunkDesc>)
    ensures
        r@ == sector_table(header@),
{
    let mut map: HashMap<u32, ChunkDesc> = HashMap::new();
    let mut slot: usize = 0;
    while slot < 1024
        invariant
            slot <= 1024,
            header@.len() == 4096,
            map@ == table_prefix(header@, slot as nat),
        decreases 1024 - slot,
    {
        let base: usize = 4 * slot;
        let offset: u32 = (header[base] as u32) * 65536 + (header[base + 1] as u32) * 256
            + (header[base + 2] as u32);
        if offset != 0 {
            let x: u8 = (slot % 32) as u8;
            let z: u8 = (slot / 32) as u8;
            map.insert(offset, ChunkDesc { x, z, len: header[base + 3] });
        }
        slot = slot + 1;
    }
    map
}

/// If table slot `s` holds a nonzero offset that no later slot repeats,
/// the sector table maps that offset to slot `s`'s chunk: on a shared
/// offset the last slot wins.
pub proof fn lemma_last_slot_wins(h: Seq<u8>, s: int)
    requires
        h.len() == 4096,
        0 <= s < 1024,
        slot_offset(h, s) != 0,
        forall|t: int| s < t < 1024 ==> slot_offset(h, t) != slot_offset(h, s),
    ensures
        sector_table(h).contains_key(slot_offset(h, s)),
        sector_table(h)[slot_offset(h, s)] == slot_desc(h, s),
{
    lemma_last_slot_wins_prefix(h, s, 1024);
}

proof fn lemma_last_slot_wins_prefix(h: Seq<u8>, s: int, n: nat)
    requires
        0 <= s < n <= 1024,
        slot_offset(h, s) != 0,
        forall|t: int| s < t < 1024 ==> slot_offset(h, t) != slot_offset(h, s),
    ensures
        table_prefix(h, n).contains_key(slot_offset(h, s)),
        table_prefix(h, n)[slot_offset(h, s)] == slot_desc(h, s),
    decreases n,
{
    if n - 1 > s {
        lemma_last_slot_wins_prefix(h, s, (n - 1) as nat);
    }
}

proof fn lemma_shared_offset_from_later_slot(h: Seq<u8>, j: int, n: nat)
    requires
        0 <= j < n <= 1024,
        slot_offset(h, j) != 0,
    ensures
        table_prefix(h, n).contains_key(slot_offset(h, j)),
        table_prefix(h, n)[slot_offset(h, j)].z as int * 32 + table_prefix(h, n)[slot_offset(
            h,
            j,
        )].x as int >= j,
    decreases n,
{
    let d = slot_desc(h, n - 1);
    assert(d.z as int * 32 + d.x as int == n - 1);
    if n - 1 > j {
        lemma_shared_offset_from_later_slot(h, j, (n - 1) as nat);
    }
}

/// A slot whose offset a later slot repeats loses its entry: its position
/// is not among the sector table's positions.
pub proof fn lemma_overwritten_slot_absent(h: Seq<u8>, i: int, j: int)
    requires
        h.len() == 4096,
        0 <= i < j < 1024,
        slot_offset(h, i) != 0,
        slot_offset(h, j) == slot_offset(h, i),
    ensures
        !table_positions(sector_table(h)).contains(position(slot_desc(h, i))),
{
    let t = sector_table(h);
    lemma_table_prefix_slots(h, 1024);
    lemma_shared_offset_from_later_slot(h, j, 1024);
    let di = slot_desc(h, i);
    assert(di.z as int * 32 + di.x as int == i);
    if table_positions(t).contains(position(di)) {
        let o = choose|o: u32| t.contains_key(o) && position(t[o]) == position(di);
        assert(t[o].z as int * 32 + t[o].x as int == i);
        assert(slot_offset(h, i) == o);
    }
}

/// The position of a chunk, as (x, z).
pub open spec fn position(d: ChunkDesc) -> (u8, u8) {
    (d.x, d.z)
}

/// The positions that the entries of a sector table name.
pub open spec fn table_positions(t: Map<u32, ChunkDesc>) -> Set<(u8, u8)> {
    Set::new(|p: (u8, u8)| exists|o: u32| t.contains_key(o) && position(t[o]) == p)
}

/// The positions of the slots of a header whose offset is nonzero.
pub open spec fn present_slot_positions(h: Seq<u8>) -> Set<(u8, u8)> {
    Set::new(
        |p: (u8, u8)|
            exists|s: int| 0 <= s < 1024 && slot_offset(h, s) != 0 && #[trigger] position(
                slot_desc(h, s),
            ) == p,
    )
}

/// Where no two slots share a nonzero offset, the sector table names
/// exactly the positions of the slots with a nonzero offset.
pub proof fn lemma_distinct_offsets_name_present_slots(h: Seq<u8>)
    requires
        h.len() == 4096,
        forall|a: int, b: int|
            0 <= a < b < 1024 && slot_offset(h, a) != 0 ==> #[trigger] slot_offset(h, a)
                != #[trigger] slot_offset(h, b),
    ensures
        table_positions(sector_table(h)) == present_slot_positions(h),
{
    let t = sector_table(h);
    lemma_table_prefix_slots(h, 1024);
    lemma_table_prefix_entries(h, 1024);
    assert forall|p: (u8, u8)| #[trigger] table_positions(t).contains(p) implies
        present_slot_positions(h).contains(p) by {
        let o = choose|o: u32| t.contains_key(o) && position(t[o]) == p;
        let s = t[o].z as int * 32 + t[o].x as int;
        assert(slot_offset(h, s) == o && t[o] == slot_desc(h, s));
    }
    assert forall|p: (u8, u8)| #[trigger] present_slot_positions(h).contains(p) implies
        table_positions(t).contains(p) by {
        let s = choose|s: int| 0 <= s < 1024 && slot_offset(h, s) != 0 && #[trigger] position(
            slot_desc(h, s),
        ) == p;
        lemma_last_slot_wins(h, s);
        assert(t.contains_key(slot_offset(h, s)));
    }
    assert(table_positions(t) =~= present_slot_positions(h));
}

/// First sector index that no 3-byte table offset can name.
pub const SECTOR_LIMIT: u32 = 0x100_0000;

/// What the reader of a region file does next.
#[derive(Clone, Copy, Debug, PartialEq, Eq, Structural)]
pub enum Step {
    /// Every table entry has been matched: the walk is over.
    Done,
    /// No chunk starts at the current sector: skip one sector.
    Skip,
    /// A chunk starts here: read `len` sectors and decode them as chunk
    /// (`x`, `z`).
    Chunk { x: u8, z: u8, len: u8 },
}

/// How the matched entries of a sector table and the positions handed out
/// agree: each position came from a matched entry, once, and every matched
/// entry's position was handed out.
pub open spec fn walk_history_ok(
    initial: Map<u32, ChunkDesc>,
    taken: Set<u32>,
    yielded: Seq<(u8, u8)>,
    origin: Seq<u32>,
) -> bool {
    &&& forall|o: u32| #[trigger]
        initial.contains_key(o) ==> 0 < o < SECTOR_LIMIT && initial[o].x < 32 && initial[o].z < 32
    &&& taken.subset_of(initial.dom())
    &&& yielded.no_duplicates()
    &&& origin.len() == yielded.len()
    &&& forall|i: int|
        #![trigger yielded[i]]
        0 <= i < yielded.len() ==> taken.contains(origin[i]) && position(initial[origin[i]])
            == yielded[i]
    &&& forall|o: u32| #[trigger] taken.contains(o) ==> yielded.contains(position(initial[o]))
}

/// The occupancy grid, indexed `x * 32 + z`, marks exactly the positions
/// handed out.
pub open spec fn seen_matches(seen: Seq<bool>, yielded: Seq<(u8, u8)>) -> bool {
    &&& seen.len() == 1024
    &&& forall|p: int|
        0 <= p < 1024 ==> (#[trigger] seen[p] <==> yielded.contains(((p / 32) as u8, (p % 32) as u8)))
}

/// The state of a walk over a region file, sector by sector in ascending
/// order, matching sector table entries as their sectors come up.
pub struct RegionWalker {
    table: HashMap<u32, ChunkDesc>,
    index: u32,
    seen: Vec<bool>,
    initial: Ghost<Map<u32, ChunkDesc>>,
    taken: Ghost<Set<u32>>,
    yielded: Ghost<Seq<(u8, u8)>>,
    origin: Ghost<Seq<u32>>,
    last: u32,
}

impl RegionWalker {
    /// The table entries not matched yet.
    pub closed spec fn pending(&self) -> Map<u32, ChunkDesc> {
        self.table@
    }

    /// The largest offset of the sector table: past it no entry can start.
    pub closed spec fn last_offset(&self) -> u32 {
        self.last
    }

    /// The index of the sector the reader stands at.
    pub closed spec fn sector(&self) -> u32 {
        self.index
    }

    /// The sector table the walk started from.
    pub closed spec fn initial(&self) -> Map<u32, ChunkDesc> {
        self.initial@
    }

    /// The positions handed out so far, in order.
    pub closed spec fn yielded(&self) -> Seq<(u8, u8)> {
        self.yielded@
    }

    pub closed spec fn wf(&self) -> bool {
        &&& self.index <= self.last + 256
        &&& forall|o: u32| #[trigger] self.initial@.contains_key(o) ==> o <= self.last
        &&& self.table@ == self.initial@.remove_keys(self.taken@)
        &&& walk_history_ok(self.initial@, self.taken@, self.yielded@, self.origin@)
        &&& seen_matches(self.seen@, self.yielded@)
        &&& positions_distinct(self.initial@)
    }

    /// The walk has passed no pending entry, and the table's chunk blocks
    /// do not overlap: what holds from the start of a well-formed file on.
    pub open spec fn in_order(&self) -> bool {
        &&& blocks_disjoint(self.initial())
        &&& forall|o: u32| #[trigger] self.pending().contains_key(o) ==> o >= self.sector()
    }

    /// The work left to the walk: the sectors it may still pass plus the
    /// entries still pending. Each step short of the end lowers it.
    pub open spec fn work_left(&self) -> int {
        (self.last_offset() + 256 - self.sector()) + self.pending().dom().len()
    }

    /// Starts a walk over the region whose header is `header`, at sector 1.
    pub fn new(header: &[u8; BLOCKSIZE]) -> (w: Self)
        ensures
            w.wf(),
            w.initial() == sector_table(header@),
            w.pending() == w.initial(),
            w.sector() == 1,
            w.last_offset() == max_slot_offset(header@, 1024),
            w.yielded() == Seq::<(u8, u8)>::empty(),
            blocks_disjoint(sector_table(header@)) ==> w.in_order(),
    {
        let table = parse_header(header);
        proof {
            lemma_table_prefix_entries(header@, 1024);
            lemma_sector_table_positions_distinct(header@);
            lemma_table_within_max_offset(header@);
        }
        let last = header_last_offset(header);
        let seen: Vec<bool> = vec![false; 1024];
        let w = RegionWalker {
            table,
            index: 1,
            seen,
            initial: Ghost(sector_table(header@)),
            taken: Ghost(Set::empty()),
            yielded: Ghost(Seq::empty()),
            origin: Ghost(Seq::empty()),
            last,
        };
        assert(w.table@ == w.initial@.remove_keys(w.taken@));
        w
    }

    /// The index of the sector the reader stands at.
    pub fn current_sector(&self) -> (r: u32)
        ensures
            r == self.sector(),
    {
        self.index
    }

    /// Decides what happens at the current sector. With entries pending, an
    /// unclaimed sector is skipped, unless the walk stands at or past the
    /// largest table offset, where no pending entry can still start; a
    /// claimed one hands out its chunk, unless that position was handed out
    /// before, and the walk moves past the chunk's sectors. Either way a
    /// matched entry leaves the table.
    pub fn next_step(&mut self) -> (r: Result<Step, RegionError>)
        requires
            old(self).wf(),
        ensures
            final(self).wf(),
            final(self).initial() == old(self).initial(),
            final(self).last_offset() == old(self).last_offset(),
            r == Err::<Step, RegionError>(RegionError::UnreachableChunk) ==> forall|o: u32| #[trigger]
                old(self).pending().contains_key(o) ==> o < old(self).sector(),
            old(self).in_order() ==> r is Ok && final(self).in_order(),
            !(r matches Err(RegionError::DuplicateChunk { .. })),
            (r == Ok::<Step, RegionError>(Step::Skip) || (r matches Ok(Step::Chunk { .. }))) ==> 0
                <= final(self).work_left() < old(self).work_left(),
            old(self).pending().is_empty() ==> {
                &&& r == Ok::<Step, RegionError>(Step::Done)
                &&& final(self).pending() == old(self).pending()
                &&& final(self).sector() == old(self).sector()
                &&& final(self).yielded() == old(self).yielded()
            },
            !old(self).pending().is_empty() && !old(self).pending().contains_key(old(self).sector())
                ==> {
                &&& final(self).pending() == old(self).pending()
                &&& final(self).yielded() == old(self).yielded()
                &&& if old(self).sector() < old(self).last_offset() {
                    &&& r == Ok::<Step, RegionError>(Step::Skip)
                    &&& final(self).sector() == old(self).sector() + 1
                } else {
                    &&& r == Err::<Step, RegionError>(RegionError::UnreachableChunk)
                    &&& final(self).sector() == old(self).sector()
                }
            },
            old(self).pending().contains_key(old(self).sector()) ==> {
                let d = old(self).pending()[old(self).sector()];
                &&& final(self).pending() == old(self).pending().remove(old(self).sector())
                &&& if old(self).yielded().contains(position(d)) {
                    &&& r == Err::<Step, RegionError>(RegionError::DuplicateChunk { x: d.x, z: d.z })
                    &&& final(self).yielded() == old(self).yielded()
                    &&& final(self).sector() == old(self).sector()
                } else {
                    &&& r == Ok::<Step, RegionError>(Step::Chunk { x: d.x, z: d.z, len: d.len })
                    &&& final(self).yielded() == old(self).yielded().push(position(d))
                    &&& final(self).sector() == old(self).sector() + d.len
                }
            },
    {
        if self.table.is_empty() {
            return Ok(Step::Done);
        }
        let index = self.index;
        if !self.table.contains_key(&index) {
            if index < self.last {
                self.index = index + 1;
                proof {
                    if old(self).in_order() {
                        assert forall|o: u32| #[trigger] self.table@.contains_key(o) implies o
                            >= self.index by {
                            assert(old(self).pending().contains_key(o));
                        }
                    }
                }
                return Ok(Step::Skip);
            } else {
                return Err(RegionError::UnreachableChunk);
            }
        }
        proof {
            lemma_pending_position_fresh(self, index);
        }
        let d = self.table.remove(&index).unwrap();
        let ghost initial = self.initial@;
        let ghost yielded = self.yielded@;
        let ghost origin = self.origin@;
        let ghost taken = self.taken@.insert(index);
        proof {
            assert(initial.contains_key(index));
            assert forall|i: int| 0 <= i < yielded.len() implies #[trigger] taken.contains(origin[i])
                && position(initial[origin[i]]) == yielded[i] by {
                assert(old(self).yielded@[i] == yielded[i]);
            }
            self.taken@ = taken;
            assert(self.table@ == initial.remove_keys(taken));
        }
        let p: usize = d.x as usize * 32 + d.z as usize;
        assert(((p / 32) as u8, (p % 32) as u8) == position(d));
        if self.seen[p] {
            proof {
                assert(self.seen@[p as int]);
                assert(walk_history_ok(initial, taken, yielded, origin));
            }
            return Err(RegionError::DuplicateChunk { x: d.x, z: d.z });
        }
        self.seen.set(p, true);
        let ghost yielded2 = yielded.push(position(d));
        let ghost origin2 = origin.push(index);
        proof {
            assert forall|i: int| 0 <= i < yielded2.len() implies taken.contains(origin2[i])
                && position(initial[origin2[i]]) == yielded2[i] by {
                if i < yielded.len() {
                    assert(yielded[i] == yielded2[i]);
                    assert(origin[i] == origin2[i]);
                }
            }
            assert forall|o: u32| #[trigger] taken.contains(o) implies yielded2.contains(
                position(initial[o]),
            ) by {
                if o != index {
                    let j = choose|j: int| 0 <= j < yielded.len() && yielded[j] == position(initial[o]);
                    assert(yielded2[j] == yielded[j]);
                } else {
                    assert(yielded2[yielded.len() as int] == position(d));
                }
            }
            assert(walk_history_ok(initial, taken, yielded2, origin2));
            assert forall|q: int| 0 <= q < 1024 implies (#[trigger] self.seen@[q]
                <==> yielded2.contains(((q / 32) as u8, (q % 32) as u8))) by {
                let pq = ((q / 32) as u8, (q % 32) as u8);
                if q == p {
                    assert(yielded2[yielded.len() as int] == pq);
                } else {
                    assert(pq != position(d));
                    if yielded.contains(pq) {
                        let j = choose|j: int| 0 <= j < yielded.len() && yielded[j] == pq;
                        assert(yielded2[j] == pq);
                    }
                    if yielded2.contains(pq) {
                        let j = choose|j: int| 0 <= j < yielded2.len() && yielded2[j] == pq;
                        assert(yielded[j] == pq);
                    }
                }
            }
            assert(seen_matches(self.seen@, yielded2));
            self.yielded@ = yielded2;
            self.origin@ = origin2;
        }
        self.index = index + d.len as u32;
        proof {
            if old(self).in_order() {
                assert forall|o: u32| #[trigger] self.table@.contains_key(o) implies o
                    >= self.index by {
                    assert(old(self).pending().contains_key(o));
                    assert(initial.contains_key(o) && initial[o] == old(self).table@[o]);
                    assert(initial[index] == d);
                }
            }
        }
        Ok(Step::Chunk { x: d.x, z: d.z, len: d.len })
    }
}

/// A pending entry's position has not been handed out yet: a walk over a
/// parsed header never meets a duplicate chunk.
pub proof fn lemma_pending_position_fresh(w: &RegionWalker, o: u32)
    requires
        w.wf(),
        w.pending().contains_key(o),
    ensures
        !w.yielded().contains(position(w.pending()[o])),
{
    let initial = w.initial@;
    let taken = w.taken@;
    let yielded = w.yielded@;
    let origin = w.origin@;
    assert(initial.contains_key(o) && !taken.contains(o) && initial[o] == w.pending()[o]);
    if yielded.contains(position(initial[o])) {
        let j = choose|j: int| 0 <= j < yielded.len() && yielded[j] == position(initial[o]);
        assert(taken.contains(origin[j]) && position(initial[origin[j]]) == yielded[j]);
        assert(initial.contains_key(origin[j]));
        assert(origin[j] == o);
    }
}

/// The entries still pending are entries of the table the walk started
/// from, unchanged.
pub proof fn lemma_pending_in_initial(w: &RegionWalker)
    requires
        w.wf(),
    ensures
        forall|o: u32| #[trigger]
            w.pending().contains_key(o) ==> w.initial().contains_key(o) && w.pending()[o]
                == w.initial()[o],
{
}

/// Once a walk has matched every entry of its sector table, the positions
/// it has handed out are exactly those the table names, each of them once.
pub proof fn lemma_walk_yields_table(w: &RegionWalker)
    requires
        w.wf(),
        w.pending().is_empty(),
    ensures
        w.yielded().to_set() == table_positions(w.initial()),
        w.yielded().no_duplicates(),
{
    let initial = w.initial@;
    let taken = w.taken@;
    let yielded = w.yielded@;
    let origin = w.origin@;
    assert forall|o: u32| initial.contains_key(o) implies #[trigger] taken.contains(o) by {
        if !taken.contains(o) {
            assert(initial.remove_keys(taken).contains_key(o));
        }
    }
    assert forall|p: (u8, u8)| #[trigger] yielded.to_set().contains(p) <==> table_positions(
        initial,
    ).contains(p) by {
        if yielded.to_set().contains(p) {
            let j = choose|j: int| 0 <= j < yielded.len() && yielded[j] == p;
            assert(taken.contains(origin[j]));
        }
        if table_positions(initial).contains(p) {
            let o = choose|o: u32| initial.contains_key(o) && position(initial[o]) == p;
            assert(taken.contains(o));
        }
    }
    assert(yielded.to_set() =~= table_positions(initial));
}

/// The 4-byte big-endian length prefix at the start of a chunk block.
pub open spec fn length_prefix(b: Seq<u8>) -> int {
    b[0] as int * 0x100_0000 + b[1] as int * 0x1_0000 + b[2] as int * 0x100 + b[3] as int
}

/// The compressed data of a chunk block, or why there is none: the block
/// starts with a length `L`, then `L` bytes made of a format tag and the
/// data; what follows is padding.
pub open spec fn spec_chunk_payload(b: Seq<u8>) -> Result<Seq<u8>, RegionError> {
    if b.len() < 4 {
        Err(RegionError::ChunkSizeTruncated)
    } else if length_prefix(b) > b.len() - 4 {
        Err(RegionError::ChunkDataTruncated)
    } else if length_prefix(b) == 0 || b[4] != ZLIB_FORMAT {
        Err(RegionError::UnknownFormat)
    } else {
        Ok(b.subrange(5, 4 + length_prefix(b)))
    }
}

/// A chunk block whose length prefix asks for more bytes than the block
/// reserves is refused as truncated.
pub proof fn lemma_overlong_prefix_truncated(b: Seq<u8>)
    requires
        b.len() >= 4,
        length_prefix(b) > b.len() - 4,
    ensures
        spec_chunk_payload(b) == Err::<Seq<u8>, RegionError>(RegionError::ChunkDataTruncated),
{
}

/// A chunk block whose length fits but whose format tag is not the zlib
/// marker is refused as of unknown format, whatever the tag is.
pub proof fn lemma_foreign_tag_refused(b: Seq<u8>)
    requires
        b.len() >= 5,
        0 < length_prefix(b) <= b.len() - 4,
        b[4] != ZLIB_FORMAT,
    ensures
        spec_chunk_payload(b) == Err::<Seq<u8>, RegionError>(RegionError::UnknownFormat),
{
}

/// Carves the compressed data out of a chunk block.
pub fn chunk_payload(buf: &[u8]) -> (r: Result<&[u8], RegionError>)
    ensures
        match r {
            Ok(p) => spec_chunk_payload(buf@) == Ok::<Seq<u8>, RegionError>(p@),
            Err(e) => spec_chunk_payload(buf@) == Err::<Seq<u8>, RegionError>(e),
        },
{
    if buf.len() < 4 {
        return Err(RegionError::ChunkSizeTruncated);
    }
    let len: u32 = (buf[0] as u32) * 0x100_0000 + (buf[1] as u32) * 0x1_0000 + (buf[2] as u32)
        * 0x100 + (buf[3] as u32);
    if len as usize > buf.len() - 4 {
        return Err(RegionError::ChunkDataTruncated);
    }
    if len == 0 || buf[4] != ZLIB_FORMAT {
        return Err(RegionError::UnknownFormat);
    }
    Ok(vstd::slice::slice_subrange(buf, 5, 4 + len as usize))
}

/// What zlib decompression of `data` yields, or `None` where the stream is
/// corrupt.
pub uninterp spec fn zlib_inflated(data: Seq<u8>) -> Option<Seq<u8>>;

/// Relies on flate2's `ZlibDecoder` read to the end over an in-memory
/// slice: the decompressed bytes, or an error on a corrupt stream. The
/// outcome depends on the input bytes alone.
#[verifier::external_body]
fn inflate(data: &[u8]) -> (r: Option<Vec<u8>>)
    ensures
        match r {
            Some(v) => zlib_inflated(data@) == Some(v@),
            None => zlib_inflated(data@) is None,
        },
{
    let mut decoder = flate2::read::ZlibDecoder::new(data);
    let mut out = Vec::new();
    match std::io::Read::read_to_end(&mut decoder, &mut out) {
        Ok(_) => Some(out),
        Err(_) => None,
    }
}

/// Whether fastnbt accepts `data` as an NBT record.
pub uninterp spec fn nbt_accepts(data: Seq<u8>) -> bool;

/// Relies on `fastnbt::from_bytes`, deserialising a generic NBT value:
/// whether it succeeds depends on the input bytes alone. The decoder
/// recurses once per nested list or compound, so only records of bounded
/// nesting are handed to it.
#[verifier::external_body]
fn nbt_from_bytes(data: &[u8]) -> (r: Result<fastnbt::Value, fastnbt::error::Error>)
    requires
        nbt_depth(data@) <= MAX_NBT_DEPTH,
    ensures
        r is Ok <==> nbt_accepts(data@),
{
    fastnbt::from_bytes(data)
}

/// Decodes a chunk block: carves out its payload, decompresses it and
/// parses the result as NBT.
pub fn decode_chunk(buf: &[u8]) -> (r: Result<fastnbt::Value, RegionError>)
    ensures
        match spec_chunk_payload(buf@) {
            Err(e) => r == Err::<fastnbt::Value, RegionError>(e),
            Ok(p) => match zlib_inflated(p) {
                None => r == Err::<fastnbt::Value, RegionError>(RegionError::Decompress),
                Some(d) => if nbt_depth(d) > MAX_NBT_DEPTH {
                    r == Err::<fastnbt::Value, RegionError>(RegionError::Nbt)
                } else {
                    (r is Ok <==> nbt_accepts(d)) && (r is Ok || r == Err::<
                        fastnbt::Value,
                        RegionError,
                    >(RegionError::Nbt))
                },
            },
        },
{
    let payload = match chunk_payload(buf) {
        Ok(p) => p,
        Err(e) => return Err(e),
    };
    let data = match inflate(payload) {
        Some(d) => d,
        None => return Err(RegionError::Decompress),
    };
    if !nbt_depth_within(data.as_slice(), MAX_NBT_DEPTH) {
        return Err(RegionError::Nbt);
    }
    match nbt_from_bytes(data.as_slice()) {
        Ok(v) => Ok(v),
        Err(_) => Err(RegionError::Nbt),
    }
}

} // verus!

verus! {

/// A region file to be read from `reader`, positioned at its first byte.
#[derive(Debug)]
pub struct Region<R> {
    reader: R,
}

impl<R> Region<R> {
    /// The byte source the region is read from.
    pub closed spec fn source(&self) -> R {
        self.reader
    }

    /// Gives back the byte source, for the walk to read from.
    pub fn into_reader(self) -> (r: R)
        ensures
            r == self.source(),
    {
        self.reader
    }
}

/// Opens a region over a byte source positioned at the start of the file.
pub fn from_reader<R>(reader: R) -> (r: Region<R>)
    ensures
        r.source() == reader,
{
    Region { reader }
}

} // verus!

verus! {

/// The header of a region file held in memory.
pub open spec fn region_header(f: Seq<u8>) -> Seq<u8> {
    f.subrange(0, 4096)
}

/// The bytes of the chunk block that starts at sector `o` and takes `len`
/// sectors.
pub open spec fn block_bytes(f: Seq<u8>, o: u32, len: u8) -> Seq<u8> {
    f.subrange(o * 4096, (o + len) * 4096)
}

/// Whether a chunk block carves, inflates, nests no deeper than the limit
/// and parses as NBT.
pub open spec fn block_decodes(b: Seq<u8>) -> bool {
    match spec_chunk_payload(b) {
        Ok(p) => match zlib_inflated(p) {
            Some(d) => nbt_depth(d) <= MAX_NBT_DEPTH && nbt_accepts(d),
            None => false,
        },
        Err(_) => false,
    }
}

/// A region file whose header is complete and whose sector table's chunk
/// blocks do not overlap, lie inside the file and decode.
pub open spec fn region_well_formed(f: Seq<u8>) -> bool {
    let t = sector_table(region_header(f));
    &&& f.len() >= 4096
    &&& blocks_disjoint(t)
    &&& forall|o: u32| #[trigger]
        t.contains_key(o) ==> (o + t[o].len) * 4096 <= f.len() && block_decodes(
            block_bytes(f, o, t[o].len),
        )
}

/// `offs` gives, for each decoded chunk of `v`, the table offset it came
/// from: a key of the sector table naming the chunk's position, the
/// offsets strictly ascending.
pub open spec fn chunks_in_file_order(
    f: Seq<u8>,
    v: Seq<(u8, u8, fastnbt::Value)>,
    offs: Seq<u32>,
) -> bool {
    let t = sector_table(region_header(f));
    &&& offs.len() == v.len()
    &&& forall|i: int|
        0 <= i < v.len() ==> #[trigger] t.contains_key(offs[i]) && position(t[offs[i]]) == (
            v[i].0,
            v[i].1,
        )
    &&& forall|i: int, j: int| 0 <= i < j < v.len() ==> offs[i] < offs[j]
}

/// The decoded chunks `v` came from table entries in ascending order of
/// their offsets.
pub open spec fn in_file_order(f: Seq<u8>, v: Seq<(u8, u8, fastnbt::Value)>) -> bool {
    exists|offs: Seq<u32>| #[trigger] chunks_in_file_order(f, v, offs)
}

/// The positions of decoded chunks, in order.
pub open spec fn chunk_positions(v: Seq<(u8, u8, fastnbt::Value)>) -> Seq<(u8, u8)> {
    v.map_values(|c: (u8, u8, fastnbt::Value)| (c.0, c.1))
}

/// The first sector of a region file held in memory.
fn header_of(file: &[u8]) -> (h: [u8; BLOCKSIZE])
    requires
        file@.len() >= 4096,
    ensures
        h@ == region_header(file@),
{
    let mut h = [0u8; BLOCKSIZE];
    let mut i: usize = 0;
    while i < BLOCKSIZE
        invariant
            i <= 4096,
            file@.len() >= 4096,
            h@.len() == 4096,
            forall|j: int| 0 <= j < i ==> h@[j] == file@[j],
        decreases 4096 - i,
    {
        h[i] = file[i];
        i = i + 1;
    }
    assert(h@ =~= region_header(file@));
    h
}

/// The chunks `v` were decoded, in order, from the blocks of the table
/// entries at `offs`: each block lies in the file and decodes, each block
/// ends before the next begins, and all end by sector `sector`.
pub open spec fn decoded_upto(
    f: Seq<u8>,
    t: Map<u32, ChunkDesc>,
    v: Seq<(u8, u8, fastnbt::Value)>,
    offs: Seq<u32>,
    sector: int,
) -> bool {
    &&& offs.len() == v.len()
    &&& forall|i: int|
        0 <= i < offs.len() ==> #[trigger] t.contains_key(offs[i]) && position(t[offs[i]]) == (
            v[i].0,
            v[i].1,
        ) && (offs[i] + t[offs[i]].len) * 4096 <= f.len() && block_decodes(
            block_bytes(f, offs[i], t[offs[i]].len),
        ) && offs[i] + t[offs[i]].len <= sector
    &&& forall|i: int, j: int|
        #![trigger offs[i], offs[j]]
        0 <= i < j < offs.len() ==> offs[i] + t[offs[i]].len <= offs[j]
}

proof fn lemma_decoded_upto_later(
    f: Seq<u8>,
    t: Map<u32, ChunkDesc>,
    v: Seq<(u8, u8, fastnbt::Value)>,
    offs: Seq<u32>,
    s1: int,
    s2: int,
)
    requires
        decoded_upto(f, t, v, offs, s1),
        s1 <= s2,
    ensures
        decoded_upto(f, t, v, offs, s2),
{
    assert forall|i: int| 0 <= i < offs.len() implies #[trigger] t.contains_key(offs[i])
        && position(t[offs[i]]) == (v[i].0, v[i].1) && (offs[i] + t[offs[i]].len) * 4096
        <= f.len() && block_decodes(block_bytes(f, offs[i], t[offs[i]].len)) && offs[i]
        + t[offs[i]].len <= s2 by {
        assert(t.contains_key(offs[i]));
    }
}

proof fn lemma_decoded_upto_push(
    f: Seq<u8>,
    t: Map<u32, ChunkDesc>,
    v: Seq<(u8, u8, fastnbt::Value)>,
    offs: Seq<u32>,
    sector: int,
    at: u32,
    c: (u8, u8, fastnbt::Value),
)
    requires
        decoded_upto(f, t, v, offs, sector),
        sector <= at,
        t.contains_key(at),
        position(t[at]) == (c.0, c.1),
        (at + t[at].len) * 4096 <= f.len(),
        block_decodes(block_bytes(f, at, t[at].len)),
    ensures
        decoded_upto(f, t, v.push(c), offs.push(at), at + t[at].len),
{
    let v2 = v.push(c);
    let o2 = offs.push(at);
    assert forall|i: int| 0 <= i < o2.len() implies #[trigger] t.contains_key(o2[i]) && position(
        t[o2[i]],
    ) == (v2[i].0, v2[i].1) && (o2[i] + t[o2[i]].len) * 4096 <= f.len() && block_decodes(
        block_bytes(f, o2[i], t[o2[i]].len),
    ) && o2[i] + t[o2[i]].len <= at + t[at].len by {
        if i < offs.len() {
            assert(o2[i] == offs[i] && v2[i] == v[i]);
            assert(t.contains_key(offs[i]));
        }
    }
    assert forall|i: int, j: int|
        #![trigger o2[i], o2[j]]
        0 <= i < j < o2.len() implies o2[i] + t[o2[i]].len <= o2[j] by {
        assert(o2[i] == offs[i]);
        assert(t.contains_key(offs[i]));
        if j < offs.len() {
            assert(o2[j] == offs[j]);
        }
    }
}

/// A walk that matched every table entry, each from a block that lies in
/// the file and decodes, the blocks following one another in file order,
/// was over a well-formed file.
proof fn lemma_finished_walk_well_formed(
    f: Seq<u8>,
    t: Map<u32, ChunkDesc>,
    v: Seq<(u8, u8, fastnbt::Value)>,
    offs: Seq<u32>,
    sector: int,
)
    requires
        f.len() >= 4096,
        t == sector_table(region_header(f)),
        decoded_upto(f, t, v, offs, sector),
        forall|o: u32| #[trigger] t.contains_key(o) ==> offs.contains(o),
    ensures
        region_well_formed(f),
        in_file_order(f, v),
{
    assert forall|i: int| 0 <= i < offs.len() implies t[offs[i]].len >= 1 by {
        assert(t.contains_key(offs[i]));
        if t[offs[i]].len == 0 {
            assert(block_bytes(f, offs[i], 0).len() == 0);
        }
    }
    assert forall|i: int, j: int| 0 <= i < j < v.len() implies offs[i] < offs[j] by {
        assert(t[offs[i]].len >= 1);
        assert(offs[i] + t[offs[i]].len <= offs[j]);
    }
    assert forall|o1: u32, o2: u32|
        t.contains_key(o1) && t.contains_key(o2) && o1 != o2 implies o1 + t[o1].len <= o2 || o2
        + t[o2].len <= o1 by {
        assert(offs.contains(o1) && offs.contains(o2));
        let i = choose|i: int| 0 <= i < offs.len() && offs[i] == o1;
        let j = choose|j: int| 0 <= j < offs.len() && offs[j] == o2;
        if i < j {
            assert(offs[i] + t[offs[i]].len <= offs[j]);
        } else {
            assert(offs[j] + t[offs[j]].len <= offs[i]);
        }
    }
    assert forall|o: u32| #[trigger] t.contains_key(o) implies (o + t[o].len) * 4096 <= f.len()
        && block_decodes(block_bytes(f, o, t[o].len)) by {
        assert(offs.contains(o));
        let i = choose|i: int| 0 <= i < offs.len() && offs[i] == o;
        assert(t.contains_key(offs[i]));
    }
    assert forall|i: int| 0 <= i < v.len() implies #[trigger] t.contains_key(offs[i]) && position(
        t[offs[i]],
    ) == (v[i].0, v[i].1) by {}
    assert(chunks_in_file_order(f, v, offs));
}

/// Decodes a whole region file held in memory: walks its sectors in
/// order and decodes each chunk as its sector comes up. It succeeds
/// exactly on well-formed files; the chunks then come out in ascending
/// order of their table offsets, with the positions of the sector table,
/// each once. Any failing chunk fails the whole file.
/// The chunks `v` were decoded, in order, from the blocks of the table
/// entries at `offs`: each block lies in the file and decodes, each block
/// ends before the next begins, and all end by sector `sector`.
#[verifier::rlimit(60)]
pub fn decode_region(file: &[u8]) -> (r: Result<Vec<(u8, u8, fastnbt::Value)>, RegionError>)
    ensures
        file@.len() < 4096 ==> r == Err::<Vec<(u8, u8, fastnbt::Value)>, RegionError>(
            RegionError::HeaderTruncated,
        ),
        r is Ok ==> {
            &&& file@.len() >= 4096
            &&& chunk_positions(r->Ok_0@).no_duplicates()
            &&& chunk_positions(r->Ok_0@).to_set() == table_positions(
                sector_table(region_header(file@)),
            )
        },
        region_well_formed(file@) ==> r is Ok,
        r is Ok ==> region_well_formed(file@),
        r is Ok ==> in_file_order(file@, r->Ok_0@),
{
    if file.len() < BLOCKSIZE {
        return Err(RegionError::HeaderTruncated);
    }
    let header = header_of(file);
    let mut w = RegionWalker::new(&header);
    let mut out: Vec<(u8, u8, fastnbt::Value)> = Vec::new();
    let ghost t = sector_table(region_header(file@));
    let ghost mut offs: Seq<u32> = Seq::empty();
    loop
        invariant
            w.wf(),
            file@.len() >= 4096,
            w.initial() == t,
            t == sector_table(region_header(file@)),
            chunk_positions(out@) == w.yielded(),
            region_well_formed(file@) ==> w.in_order(),
            decoded_upto(file@, t, out@, offs, w.sector() as int),
            forall|o: u32| #[trigger]
                t.contains_key(o) ==> w.pending().contains_key(o) || offs.contains(o),
        decreases w.work_left(),
    {
        let at = w.current_sector();
        proof {
            lemma_pending_in_initial(&w);
        }
        let ghost before = w;
        let step = match w.next_step() {
            Ok(step) => step,
            Err(e) => return Err(e),
        };
        match step {
            Step::Done => {
                proof {
                    lemma_walk_yields_table(&w);
                    assert(before.pending().is_empty());
                    assert forall|o: u32| #[trigger] t.contains_key(o) implies offs.contains(o) by {
                        assert(!before.pending().contains_key(o));
                    }
                    lemma_finished_walk_well_formed(file@, t, out@, offs, w.sector() as int);
                }
                return Ok(out);
            },
            Step::Skip => {
                proof {
                    lemma_decoded_upto_later(
                        file@,
                        t,
                        out@,
                        offs,
                        before.sector() as int,
                        w.sector() as int,
                    );
                }
            },
            Step::Chunk { x, z, len } => {
                let start: u64 = at as u64 * 4096;
                let end: u64 = (at as u64 + len as u64) * 4096;
                if end > file.len() as u64 {
                    return Err(RegionError::ChunkDataMissing);
                }
                let block = vstd::slice::slice_subrange(file, start as usize, end as usize);
                assert(block@ == block_bytes(file@, at, len));
                let chunk = match decode_chunk(block) {
                    Ok(c) => c,
                    Err(e) => return Err(e),
                };
                let ghost prev = out@;
                let ghost prev_offs = offs;
                out.push((x, z, chunk));
                assert(chunk_positions(out@) =~= chunk_positions(prev).push((x, z)));
                proof {
                    assert(before.pending().contains_key(at));
                    assert(t.contains_key(at) && t[at] == before.pending()[at]);
                    lemma_decoded_upto_push(
                        file@,
                        t,
                        prev,
                        prev_offs,
                        before.sector() as int,
                        at,
                        (x, z, chunk),
                    );
                    offs = offs.push(at);
                    assert(out@ == prev.push((x, z, chunk)));
                    assert forall|o: u32| #[trigger] t.contains_key(o) implies w.pending().contains_key(
                        o,
                    ) || offs.contains(o) by {
                        if o == at {
                            assert(offs[offs.len() - 1] == at);
                        } else if prev_offs.contains(o) {
                            let i = choose|i: int| 0 <= i < prev_offs.len() && prev_offs[i] == o;
                            assert(offs[i] == o);
                        }
                    }
                }
            },
        }
    }
}

} // verus!
