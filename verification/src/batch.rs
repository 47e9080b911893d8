//! The batch builder: levels are ordered by clutter level, merged and
//! packed, and either every level yields a record or the batch yields none.

use crate::bits::fits_in_bits;
use crate::grid::{merge_outcome, to_tiles};
use crate::level::{BatchError, Level, PackError};
use crate::order::{
    is_stable_order, lemma_stable_order_exists, precedes, sort_order, stable_order,
};
use crate::pack::{
    all_fit, lemma_flags_byte, pack_outcome, packable, to_binary, unpacked_values,
};
use vstd::prelude::*;

verus! {

/// The keys that a batch is ordered by: each level's clutter level.
pub open spec fn clutter_keys(levels: Seq<Level>) -> Seq<i32> {
    Seq::new(levels.len(), |i: int| levels[i].values.clutter_level)
}

/// What one level yields: its layers are merged, then the merged grid is
/// packed with the level's settings. A fault in merging is reported before
/// any in packing.
pub open spec fn level_outcome(level: Level) -> Result<Seq<u8>, PackError> {
    match merge_outcome(level.background@, level.entities@) {
        Ok(tiles) => pack_outcome(tiles, level.values),
        Err(e) => Err(e),
    }
}

/// Every level of the batch yields a record.
pub open spec fn all_pack(levels: Seq<Level>) -> bool {
    forall|i: int| 0 <= i < levels.len() ==> level_outcome(#[trigger] levels[i]) is Ok
}

/// Position `k` of `order` names the first level, in that order, that
/// yields no record.
pub open spec fn is_first_failure(levels: Seq<Level>, order: Seq<usize>, k: int) -> bool {
    &&& 0 <= k < order.len()
    &&& level_outcome(levels[order[k] as int]) is Err
    &&& forall|j: int|
        0 <= j < k ==> level_outcome(levels[(#[trigger] order[j]) as int]) is Ok
}

/// The position in `order` of the first level that yields no record, where
/// there is one.
pub open spec fn first_failure(levels: Seq<Level>, order: Seq<usize>) -> int {
    choose|k: int| is_first_failure(levels, order, k)
}

/// What a batch yields. Where every level packs, the records of all levels
/// in the stable order of their clutter levels. Otherwise nothing but the
/// fault of the first level, in that order, that does not pack, with the
/// level's position in the input.
pub open spec fn batch_outcome(levels: Seq<Level>) -> Result<Seq<Seq<u8>>, BatchError> {
    let order = stable_order(clutter_keys(levels));
    if all_pack(levels) {
        Ok(Seq::new(levels.len(), |k: int| level_outcome(levels[order[k] as int])->Ok_0))
    } else {
        let k = first_failure(levels, order);
        Err(
            BatchError {
                level: order[k],
                error: level_outcome(levels[order[k] as int])->Err_0,
            },
        )
    }
}

/// Merges and packs one level.
pub fn pack_level(lvl: &Level) -> (packed: Result<[u8; 33], PackError>)
    ensures
        match packed {
            Ok(record) => level_outcome(*lvl) == Ok::<Seq<u8>, PackError>(record@),
            Err(e) => level_outcome(*lvl) == Err::<Seq<u8>, PackError>(e),
        },
{
    match to_tiles(lvl) {
        Ok(tiles) => to_binary(tiles.as_slice(), lvl.values),
        Err(e) => Err(e),
    }
}

fn clutter_levels(levels: &Vec<Level>) -> (keys: Vec<i32>)
    ensures
        keys@ == clutter_keys(levels@),
{
    let mut keys: Vec<i32> = Vec::new();
    let mut i: usize = 0;
    while i < levels.len()
        invariant
            i <= levels@.len(),
            keys@.len() == i,
            forall|j: int| 0 <= j < i ==> keys@[j] == levels@[j].values.clutter_level,
        decreases levels@.len() - i,
    {
        keys.push(levels[i].values.clutter_level);
        i += 1;
    }
    assert(keys@ =~= clutter_keys(levels@));
    keys
}

/// Builds the batch: one record per level, in the stable order of the
/// levels' clutter levels. A single level that cannot be merged or packed
/// fails the whole batch.
pub fn build(levels: &Vec<Level>) -> (batch: Result<Vec<[u8; 33]>, BatchError>)
    ensures
        match batch {
            Ok(records) => batch_outcome(levels@) == Ok::<Seq<Seq<u8>>, BatchError>(
                records@.map_values(|record: [u8; 33]| record@),
            ),
            Err(e) => batch_outcome(levels@) == Err::<Seq<Seq<u8>>, BatchError>(e),
        },
        batch matches Ok(records) ==> records@.len() == levels@.len(),
        batch matches Err(e) ==> e.level < levels@.len(),
{
    let keys = clutter_levels(levels);
    let order = sort_order(&keys);
    let mut records: Vec<[u8; 33]> = Vec::new();
    let mut k: usize = 0;
    while k < order.len()
        invariant
            keys@ == clutter_keys(levels@),
            is_stable_order(keys@, order@),
            order@ == stable_order(keys@),
            k <= order@.len(),
            records@.len() == k,
            forall|j: int|
                0 <= j < k ==> level_outcome(levels@[(#[trigger] order@[j]) as int]) == Ok::<
                    Seq<u8>,
                    PackError,
                >(records@[j]@),
        decreases order@.len() - k,
    {
        let at = order[k];
        match pack_level(&levels[at]) {
            Ok(record) => {
                records.push(record);
            },
            Err(error) => {
                proof {
                    assert(is_first_failure(levels@, order@, k as int));
                    assert(level_outcome(levels@[at as int]) is Err);
                    lemma_first_failure_is_one(levels@, order@, k as int);
                }
                return Err(BatchError { level: at, error });
            },
        }
        k += 1;
    }
    proof {
        assert forall|i: int| 0 <= i < levels@.len() implies level_outcome(
            #[trigger] levels@[i],
        ) is Ok by {
            assert(order@.contains(i as usize));
            let j = choose|j: int| 0 <= j < order@.len() && order@[j] == i as usize;
            assert(level_outcome(levels@[order@[j] as int]) is Ok);
        }
        assert(records@.map_values(|record: [u8; 33]| record@) =~= Seq::new(
            levels@.len(),
            |k: int| level_outcome(levels@[order@[k] as int])->Ok_0,
        ));
    }
    Ok(records)
}

/// Of the positions of `order`, only one can be the first that fails.
proof fn lemma_first_failure_is_one(levels: Seq<Level>, order: Seq<usize>, k: int)
    requires
        is_first_failure(levels, order, k),
    ensures
        first_failure(levels, order) == k,
{
    let c = first_failure(levels, order);
    assert(is_first_failure(levels, order, c));
    if c < k {
        assert(level_outcome(levels[order[c] as int]) is Ok);
    } else if k < c {
        assert(level_outcome(levels[order[k] as int]) is Ok);
    }
}

/// Where some level does not pack, there is a first one in the stable order
/// that does not, and `first_failure` is its position in that order.
pub proof fn lemma_first_failure(levels: Seq<Level>)
    requires
        levels.len() <= usize::MAX,
        !all_pack(levels),
    ensures
        is_first_failure(
            levels,
            stable_order(clutter_keys(levels)),
            first_failure(levels, stable_order(clutter_keys(levels))),
        ),
{
    let order = stable_order(clutter_keys(levels));
    lemma_stable_order_exists(clutter_keys(levels));
    let i = choose|i: int| 0 <= i < levels.len() && !(level_outcome(#[trigger] levels[i]) is Ok);
    assert(order.contains(i as usize));
    let w = choose|w: int| 0 <= w < order.len() && order[w] == i as usize;
    lemma_failure_has_first(levels, order, w);
}

proof fn lemma_failure_has_first(levels: Seq<Level>, order: Seq<usize>, w: int)
    requires
        0 <= w < order.len(),
        level_outcome(levels[order[w] as int]) is Err,
    ensures
        exists|k: int| is_first_failure(levels, order, k),
    decreases w,
{
    if forall|j: int| 0 <= j < w ==> level_outcome(levels[(#[trigger] order[j]) as int]) is Ok {
        assert(is_first_failure(levels, order, w));
    } else {
        let j = choose|j: int|
            0 <= j < w && !(level_outcome(levels[(#[trigger] order[j]) as int]) is Ok);
        lemma_failure_has_first(levels, order, j);
    }
}

/// A batch whose levels all pack yields one record per level, in the stable
/// order of the clutter levels: the clutter levels read back from the
/// records never fall, and levels with one clutter level keep the order in
/// which they came.
pub proof fn lemma_batch_order(levels: Seq<Level>)
    requires
        levels.len() <= usize::MAX,
        all_pack(levels),
    ensures
        batch_outcome(levels) is Ok,
        batch_outcome(levels)->Ok_0.len() == levels.len(),
        is_stable_order(clutter_keys(levels), stable_order(clutter_keys(levels))),
        forall|k: int|
            0 <= k < levels.len() ==> level_outcome(
                levels[stable_order(clutter_keys(levels))[k] as int],
            ) == Ok::<Seq<u8>, PackError>(#[trigger] batch_outcome(levels)->Ok_0[k]),
        forall|a: int, b: int|
            0 <= a <= b < levels.len() ==> unpacked_values(
                (#[trigger] batch_outcome(levels)->Ok_0[a])[32],
            ).clutter_level <= unpacked_values(
                (#[trigger] batch_outcome(levels)->Ok_0[b])[32],
            ).clutter_level,
{
    let keys = clutter_keys(levels);
    let order = stable_order(keys);
    let records = batch_outcome(levels)->Ok_0;
    lemma_stable_order_exists(keys);
    assert forall|k: int| 0 <= k < levels.len() implies unpacked_values(
        (#[trigger] records[k])[32],
    ).clutter_level == keys[order[k] as int] by {
        let level = levels[order[k] as int];
        assert(level_outcome(level) is Ok);
        lemma_flags_byte(level.values);
    }
    assert forall|a: int, b: int| 0 <= a <= b < levels.len() implies unpacked_values(
        (#[trigger] records[a])[32],
    ).clutter_level <= unpacked_values((#[trigger] records[b])[32]).clutter_level by {
        if a < b {
            assert(precedes(keys, order[a] as int, order[b] as int));
        }
    }
}

/// One level that does not pack fails the batch, whatever the others hold.
pub proof fn lemma_bad_level_fails_batch(levels: Seq<Level>, i: int)
    requires
        0 <= i < levels.len(),
        level_outcome(levels[i]) is Err,
    ensures
        batch_outcome(levels) is Err,
{
}

/// One tile that does not fit four bits, anywhere in the merged grid of any
/// level, fails the batch.
pub proof fn lemma_unfit_tile_fails_batch(levels: Seq<Level>, i: int, cell: int)
    requires
        0 <= i < levels.len(),
        merge_outcome(levels[i].background@, levels[i].entities@) is Ok,
        0 <= cell < 64,
        !fits_in_bits(
            merge_outcome(levels[i].background@, levels[i].entities@)->Ok_0[cell] as int,
            4,
        ),
    ensures
        batch_outcome(levels) is Err,
{
    let tiles = merge_outcome(levels[i].background@, levels[i].entities@)->Ok_0;
    if tiles.len() == 64 {
        assert(!all_fit(tiles, 4));
    }
    assert(!packable(tiles, levels[i].values));
    assert(level_outcome(levels[i]) is Err);
}

/// What a batch yields depends on its levels alone: two batches of records
/// that both are the outcome for the same levels hold the same records.
pub proof fn lemma_batch_is_determined(
    levels: Seq<Level>,
    first: Seq<[u8; 33]>,
    second: Seq<[u8; 33]>,
)
    requires
        batch_outcome(levels) == Ok::<Seq<Seq<u8>>, BatchError>(
            first.map_values(|record: [u8; 33]| record@),
        ),
        batch_outcome(levels) == Ok::<Seq<Seq<u8>>, BatchError>(
            second.map_values(|record: [u8; 33]| record@),
        ),
    ensures
        first == second,
        first.len() == levels.len(),
{
    let first_views = first.map_values(|record: [u8; 33]| record@);
    let second_views = second.map_values(|record: [u8; 33]| record@);
    assert(first_views == second_views);
    assert(first.len() == first_views.len());
    assert(second.len() == second_views.len());
    assert forall|k: int| 0 <= k < first.len() implies first[k] == second[k] by {
        assert(first_views[k] == first[k]@);
        assert(second_views[k] == second[k]@);
        assert(first[k] =~= second[k]);
    }
    assert(first =~= second);
}

} // verus!
