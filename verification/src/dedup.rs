//! One colour for each cell.
//!
//! Samples are written into a map keyed by the cell, one after another, so
//! that a later sample overwrites an earlier one of the same cell. What is
//! left in the map is handed out in whatever order the map walks its entries.
use crate::grid::{GridCoord, Voxel};
use ahash::AHashMap;
use vstd::prelude::*;

verus! {

/// `ahash::AHashMap`, the hash map that holds the cells.
#[verifier::external_type_specification]
#[verifier::external_body]
#[verifier::reject_recursive_types(K)]
#[verifier::reject_recursive_types(V)]
#[verifier::reject_recursive_types(S)]
pub struct ExAHashMap<K, V, S>(AHashMap<K, V, S>);

/// `ahash::RandomState`, the hasher that an `AHashMap` is made with.
#[verifier::external_type_specification]
#[verifier::external_body]
pub struct ExRandomState(ahash::RandomState);

/// A cell by its three coordinates: the key that the map holds it under.
pub type CellKey = (i32, i32, i32);

/// The map that holds the cells.
pub type CellMap = AHashMap<CellKey, [u8; 4]>;

/// What a map of cells holds: for each cell in it the colour that was last
/// written to it.
pub uninterp spec fn cell_map_contents(cells: CellMap) -> Map<CellKey, [u8; 4]>;

/// The three coordinates of a cell, the key that the map holds it under.
pub open spec fn key_of(cell: GridCoord) -> CellKey {
    (cell.x, cell.y, cell.z)
}

/// `entries` lists what `contents` holds: every cell of it with its colour,
/// each cell once, and nothing else.
pub open spec fn lists(entries: Seq<Voxel>, contents: Map<CellKey, [u8; 4]>) -> bool {
    &&& forall|i: int, j: int| 0 <= i < j < entries.len() ==> entries[i].0 != entries[j].0
    &&& forall|i: int|
        0 <= i < entries.len() ==> contents.contains_pair(
            key_of(#[trigger] entries[i].0),
            entries[i].1,
        )
    &&& forall|k: CellKey|
        contents.dom().contains(k) ==> exists|i: int|
            0 <= i < entries.len() && key_of(#[trigger] entries[i].0) == k
}

/// `AHashMap::new`: a map that holds nothing.
#[verifier::external_body]
pub(crate) fn cell_map_new() -> (cells: CellMap)
    ensures
        cell_map_contents(cells) =~= Map::empty(),
{
    AHashMap::new()
}

/// `AHashMap::insert`: the colour is written to the cell, in place of the
/// colour that the map held for that cell, if it held one; every other cell
/// keeps what it had.
#[verifier::external_body]
pub(crate) fn cell_map_insert(cells: &mut CellMap, cell: GridCoord, color: [u8; 4])
    ensures
        cell_map_contents(*final(cells)) == cell_map_contents(*old(cells)).insert(key_of(cell), color),
{
    cells.insert((cell.x, cell.y, cell.z), color);
}

/// `AHashMap::into_iter`, collected: every cell of the map with its colour,
/// each cell once, in no order that could be told beforehand.
#[verifier::external_body]
pub(crate) fn cell_map_into_vec(cells: CellMap) -> (out: Vec<Voxel>)
    ensures
        lists(out@, cell_map_contents(cells)),
{
    cells.into_iter().map(|(k, v)| (GridCoord { x: k.0, y: k.1, z: k.2 }, v)).collect()
}

/// The map that writing the samples one after another leaves.
pub open spec fn written(samples: Seq<Voxel>) -> Map<CellKey, [u8; 4]>
    decreases samples.len(),
{
    if samples.len() == 0 {
        Map::empty()
    } else {
        written(samples.drop_last()).insert(key_of(samples.last().0), samples.last().1)
    }
}

/// The cells that the samples name.
pub open spec fn cells_of(samples: Seq<Voxel>) -> Set<GridCoord> {
    Set::new(|cell: GridCoord| exists|i: int| 0 <= i < samples.len() && samples[i].0 == cell)
}

/// The sample at `i` is the last one of its cell.
pub open spec fn is_last_write(samples: Seq<Voxel>, i: int) -> bool {
    &&& 0 <= i < samples.len()
    &&& forall|j: int| i < j < samples.len() ==> samples[j].0 != samples[i].0
}

/// `out` holds one voxel for each cell that `samples` names, and that voxel is
/// the last sample of its cell.
pub open spec fn is_dedup_of(out: Seq<Voxel>, samples: Seq<Voxel>) -> bool {
    &&& forall|i: int, j: int| 0 <= i < j < out.len() ==> out[i].0 != out[j].0
    &&& forall|k: int|
        0 <= k < out.len() ==> exists|i: int|
            is_last_write(samples, i) && samples[i] == #[trigger] out[k]
    &&& forall|i: int|
        0 <= i < samples.len() ==> exists|k: int|
            0 <= k < out.len() && out[k].0 == #[trigger] samples[i].0
}

/// The place of the last sample of the cell with the given key, and `-1`
/// where no sample names that cell.
pub open spec fn last_write(samples: Seq<Voxel>, k: CellKey) -> int
    decreases samples.len(),
{
    if samples.len() == 0 {
        -1
    } else if key_of(samples.last().0) == k {
        samples.len() - 1
    } else {
        last_write(samples.drop_last(), k)
    }
}

/// What writing the samples leaves for a cell is the colour of the last sample
/// of that cell; it leaves nothing for a cell that no sample names.
pub proof fn lemma_written_is_last_write(samples: Seq<Voxel>, k: CellKey)
    ensures
        -1 <= last_write(samples, k) < samples.len(),
        last_write(samples, k) >= 0 ==> {
            &&& key_of(samples[last_write(samples, k)].0) == k
            &&& is_last_write(samples, last_write(samples, k))
            &&& written(samples).contains_pair(k, samples[last_write(samples, k)].1)
        },
        last_write(samples, k) < 0 ==> {
            &&& !written(samples).dom().contains(k)
            &&& forall|j: int| 0 <= j < samples.len() ==> key_of(#[trigger] samples[j].0) != k
        },
    decreases samples.len(),
{
    if samples.len() > 0 {
        let before = samples.drop_last();
        lemma_written_is_last_write(before, k);
        let i = last_write(samples, k);
        assert forall|j: int| 0 <= j < before.len() implies before[j] == samples[j] by {}
        if key_of(samples.last().0) != k && i >= 0 {
            assert forall|j: int| i < j < samples.len() implies samples[j].0 != samples[i].0 by {
                if j < before.len() {
                    assert(before[j].0 != before[i].0);
                }
            }
        }
    }
}

/// One more write after the writes of the samples so far.
pub proof fn lemma_written_push(samples: Seq<Voxel>, sample: Voxel)
    ensures
        written(samples.push(sample)) == written(samples).insert(key_of(sample.0), sample.1),
{
    assert(samples.push(sample).drop_last() =~= samples);
}

/// A list of what the writes of the samples leave is a deduplication of the
/// samples.
pub proof fn lemma_list_is_dedup(out: Seq<Voxel>, samples: Seq<Voxel>)
    requires
        lists(out, written(samples)),
    ensures
        is_dedup_of(out, samples),
{
    assert forall|k: int| 0 <= k < out.len() implies exists|i: int|
        is_last_write(samples, i) && samples[i] == #[trigger] out[k] by {
        let key = key_of(out[k].0);
        lemma_written_is_last_write(samples, key);
        let i = last_write(samples, key);
        assert(written(samples).contains_pair(key, out[k].1));
        assert(samples[i].0 == out[k].0);
        assert(samples[i] == out[k]);
    }
    assert forall|i: int| 0 <= i < samples.len() implies exists|k: int|
        0 <= k < out.len() && out[k].0 == #[trigger] samples[i].0 by {
        let key = key_of(samples[i].0);
        lemma_written_is_last_write(samples, key);
        assert(written(samples).dom().contains(key));
        let k = choose|k: int| 0 <= k < out.len() && key_of(#[trigger] out[k].0) == key;
        assert(out[k].0 == samples[i].0);
    }
}

/// The cells that the samples name are the cells of the samples, as a set.
proof fn lemma_cells_of_is_set(samples: Seq<Voxel>)
    ensures
        samples.map_values(|v: Voxel| v.0).to_set() == cells_of(samples),
{
    let all = samples.map_values(|v: Voxel| v.0);
    assert forall|cell: GridCoord| all.to_set().contains(cell) implies cells_of(samples).contains(
        cell,
    ) by {
        let i = choose|i: int| 0 <= i < all.len() && all[i] == cell;
        assert(samples[i].0 == cell);
    }
    assert forall|cell: GridCoord| cells_of(samples).contains(cell) implies all.to_set().contains(
        cell,
    ) by {
        let i = choose|i: int| 0 <= i < samples.len() && samples[i].0 == cell;
        assert(all[i] == cell);
    }
    assert(all.to_set() =~= cells_of(samples));
}

/// A deduplication names the cells that the samples name.
proof fn lemma_dedup_names_the_same(out: Seq<Voxel>, samples: Seq<Voxel>)
    requires
        is_dedup_of(out, samples),
    ensures
        cells_of(out) == cells_of(samples),
{
    assert forall|cell: GridCoord| cells_of(out).contains(cell) implies cells_of(samples).contains(
        cell,
    ) by {
        let k = choose|k: int| 0 <= k < out.len() && out[k].0 == cell;
        let i = choose|i: int| is_last_write(samples, i) && samples[i] == #[trigger] out[k];
        assert(samples[i].0 == cell);
    }
    assert forall|cell: GridCoord| cells_of(samples).contains(cell) implies cells_of(out).contains(
        cell,
    ) by {
        let i = choose|i: int| 0 <= i < samples.len() && samples[i].0 == cell;
        let k = choose|k: int| 0 <= k < out.len() && out[k].0 == #[trigger] samples[i].0;
        assert(out[k].0 == cell);
    }
    assert(cells_of(out) =~= cells_of(samples));
}

/// A deduplication has as many voxels as the samples name cells: of `N`
/// samples that fall onto `K` cells it keeps `K`, and `K` is at most `N`.
pub proof fn lemma_dedup_len(out: Seq<Voxel>, samples: Seq<Voxel>)
    requires
        is_dedup_of(out, samples),
    ensures
        out.len() == cells_of(samples).len(),
        out.len() <= samples.len(),
{
    lemma_dedup_names_the_same(out, samples);
    lemma_cells_of_is_set(out);
    lemma_cells_of_is_set(samples);
    let named = out.map_values(|v: Voxel| v.0);
    assert(named.no_duplicates());
    named.unique_seq_to_set();
    samples.map_values(|v: Voxel| v.0).lemma_cardinality_of_set();
}

/// Reduces the samples to one voxel for each cell that they name: the last
/// sample of the cell. The voxels come in no order that could be told
/// beforehand.
pub fn dedup(samples: &Vec<Voxel>) -> (out: Vec<Voxel>)
    ensures
        is_dedup_of(out@, samples@),
        out@.len() == cells_of(samples@).len(),
        out@.len() <= samples@.len(),
{
    let mut cells = cell_map_new();
    let mut i: usize = 0;
    while i < samples.len()
        invariant
            i <= samples.len(),
            cell_map_contents(cells) == written(samples@.take(i as int)),
        decreases samples.len() - i,
    {
        let sample = samples[i];
        proof {
            lemma_written_push(samples@.take(i as int), sample);
            assert(samples@.take(i as int).push(sample) =~= samples@.take(i + 1));
        }
        cell_map_insert(&mut cells, sample.0, sample.1);
        i = i + 1;
    }
    let out = cell_map_into_vec(cells);
    proof {
        assert(samples@.take(i as int) =~= samples@);
        lemma_list_is_dedup(out@, samples@);
        lemma_dedup_len(out@, samples@);
    }
    out
}

} // verus!
