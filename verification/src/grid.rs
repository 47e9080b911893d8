//! The merger: entities are laid over a level's background tiles.

use crate::level::{Entity, Level, PackError, GRID_TILES};
use vstd::prelude::*;

verus! {

/// The grid column of pixel column `x`, or the grid row of pixel row `y`:
/// cells are eight pixels wide and high, and the division rounds down.
pub open spec fn cell_coord(pixel: int) -> int {
    pixel / 8
}

/// The place in the grid of the cell that `entity` stands in, rows first.
pub open spec fn cell_of(entity: Entity) -> int {
    cell_coord(entity.y as int) * 8 + cell_coord(entity.x as int)
}

/// `entity` stands in one of the 64 cells of the grid.
pub open spec fn in_grid(entity: Entity) -> bool {
    0 <= cell_of(entity) < 64
}

/// Every entity of the list stands in the grid.
pub open spec fn all_in_grid(entities: Seq<Entity>) -> bool {
    forall|k: int| 0 <= k < entities.len() ==> in_grid(#[trigger] entities[k])
}

/// Position `k` holds the first entity of the list that stands outside the grid.
pub open spec fn is_first_stray(entities: Seq<Entity>, k: int) -> bool {
    &&& 0 <= k < entities.len()
    &&& !in_grid(entities[k])
    &&& forall|j: int| 0 <= j < k ==> in_grid(#[trigger] entities[j])
}

/// The position of the first entity that stands outside the grid, where there is one.
pub open spec fn first_stray(entities: Seq<Entity>) -> int {
    choose|k: int| is_first_stray(entities, k)
}

/// The background with the entities written over it one after the other,
/// each replacing whatever its cell held before.
pub open spec fn overlay(background: Seq<i32>, entities: Seq<Entity>) -> Seq<i32>
    decreases entities.len(),
{
    if entities.len() == 0 {
        background
    } else {
        overlay(background, entities.drop_last()).update(
            cell_of(entities.last()),
            entities.last().id,
        )
    }
}

/// What merging yields. The background's length is looked at first, then the
/// entities in their order; the first fault found is the one reported.
pub open spec fn merge_outcome(background: Seq<i32>, entities: Seq<Entity>) -> Result<
    Seq<i32>,
    PackError,
> {
    if background.len() != 64 {
        Err(PackError::GridLength { len: background.len() as usize })
    } else if !all_in_grid(entities) {
        Err(PackError::EntityOutOfBounds { entity: first_stray(entities) as usize })
    } else {
        Ok(overlay(background, entities))
    }
}

/// The grid column of a pixel column, or the grid row of a pixel row.
pub fn grid_coord(pixel: i32) -> (cell: i32)
    ensures
        cell == cell_coord(pixel as int),
{
    if pixel >= 0 {
        pixel / 8
    } else {
        let below: i64 = 7 - (pixel as i64);
        let cell: i64 = -(below / 8);
        cell as i32
    }
}

/// The place in the grid that `entity` writes to, if it stands in the grid.
pub fn tile_index(entity: &Entity) -> (index: Option<usize>)
    ensures
        match index {
            Some(i) => in_grid(*entity) && i == cell_of(*entity),
            None => !in_grid(*entity),
        },
{
    let col: i64 = grid_coord(entity.x) as i64;
    let row: i64 = grid_coord(entity.y) as i64;
    let cell: i64 = row * 8 + col;
    if 0 <= cell && cell < 64 {
        Some(cell as usize)
    } else {
        None
    }
}

/// Merges a level's two layers into one grid of 64 tiles: the background,
/// with each entity's id written to the cell it stands in. Entities are
/// applied in the order of the list, so of two in one cell the later stays.
pub fn to_tiles(lvl: &Level) -> (merged: Result<Vec<i32>, PackError>)
    ensures
        match merged {
            Ok(tiles) => merge_outcome(lvl.background@, lvl.entities@) == Ok::<
                Seq<i32>,
                PackError,
            >(tiles@),
            Err(e) => merge_outcome(lvl.background@, lvl.entities@) == Err::<Seq<i32>, PackError>(
                e,
            ),
        },
{
    if lvl.background.len() != GRID_TILES {
        return Err(PackError::GridLength { len: lvl.background.len() });
    }
    let mut tile_ids = lvl.background.clone();
    assert(tile_ids@ =~= lvl.background@);
    let mut k: usize = 0;
    while k < lvl.entities.len()
        invariant
            k <= lvl.entities@.len(),
            lvl.background@.len() == 64,
            tile_ids@.len() == 64,
            tile_ids@ == overlay(lvl.background@, lvl.entities@.take(k as int)),
            forall|j: int| 0 <= j < k ==> in_grid(#[trigger] lvl.entities@[j]),
        decreases lvl.entities@.len() - k,
    {
        let entity = lvl.entities[k];
        match tile_index(&entity) {
            None => {
                assert(is_first_stray(lvl.entities@, k as int));
                return Err(PackError::EntityOutOfBounds { entity: k });
            },
            Some(index) => {
                tile_ids[index] = entity.id;
            },
        }
        assert(lvl.entities@.take(k + 1).drop_last() =~= lvl.entities@.take(k as int));
        k += 1;
    }
    assert(lvl.entities@.take(k as int) =~= lvl.entities@);
    assert(all_in_grid(lvl.entities@));
    Ok(tile_ids)
}

/// No entity of the list stands in `cell`.
pub open spec fn untouched(entities: Seq<Entity>, cell: int) -> bool {
    forall|k: int| 0 <= k < entities.len() ==> cell_of(#[trigger] entities[k]) != cell
}

/// The entity at position `k` is the last of the list that stands in `cell`.
pub open spec fn is_last_in_cell(entities: Seq<Entity>, cell: int, k: int) -> bool {
    &&& 0 <= k < entities.len()
    &&& cell_of(entities[k]) == cell
    &&& forall|m: int| k < m < entities.len() ==> cell_of(#[trigger] entities[m]) != cell
}

/// Merging keeps the grid at 64 tiles.
pub proof fn lemma_overlay_len(background: Seq<i32>, entities: Seq<Entity>)
    requires
        background.len() == 64,
        all_in_grid(entities),
    ensures
        overlay(background, entities).len() == 64,
    decreases entities.len(),
{
    if entities.len() > 0 {
        assert(in_grid(entities[entities.len() - 1]));
        assert(all_in_grid(entities.drop_last())) by {
            assert forall|k: int| 0 <= k < entities.drop_last().len() implies in_grid(
                #[trigger] entities.drop_last()[k],
            ) by {
                assert(in_grid(entities[k]));
            }
        }
        lemma_overlay_len(background, entities.drop_last());
    }
}

/// A cell that no entity stands in keeps its background tile.
pub proof fn lemma_overlay_keeps_untouched(background: Seq<i32>, entities: Seq<Entity>, cell: int)
    requires
        background.len() == 64,
        all_in_grid(entities),
        0 <= cell < 64,
        untouched(entities, cell),
    ensures
        overlay(background, entities)[cell] == background[cell],
    decreases entities.len(),
{
    if entities.len() > 0 {
        let rest = entities.drop_last();
        assert(in_grid(entities[entities.len() - 1]));
        assert(cell_of(entities[entities.len() - 1]) != cell);
        assert(all_in_grid(rest) && untouched(rest, cell)) by {
            assert forall|k: int| 0 <= k < rest.len() implies in_grid(#[trigger] rest[k])
                && cell_of(rest[k]) != cell by {
                assert(in_grid(entities[k]));
                assert(cell_of(entities[k]) != cell);
            }
        }
        lemma_overlay_len(background, rest);
        lemma_overlay_keeps_untouched(background, rest, cell);
    }
}

/// A cell that entities stand in holds the id of the last of them: of two
/// entities in one cell, the later in the list wins.
pub proof fn lemma_overlay_last_wins(
    background: Seq<i32>,
    entities: Seq<Entity>,
    cell: int,
    k: int,
)
    requires
        background.len() == 64,
        all_in_grid(entities),
        is_last_in_cell(entities, cell, k),
    ensures
        overlay(background, entities)[cell] == entities[k].id,
    decreases entities.len(),
{
    let rest = entities.drop_last();
    let last = entities.len() - 1;
    assert(in_grid(entities[last]));
    assert(in_grid(entities[k]));
    assert(all_in_grid(rest)) by {
        assert forall|j: int| 0 <= j < rest.len() implies in_grid(#[trigger] rest[j]) by {
            assert(in_grid(entities[j]));
        }
    }
    lemma_overlay_len(background, rest);
    if k < last {
        assert(cell_of(entities[last]) != cell);
        assert(is_last_in_cell(rest, cell, k)) by {
            assert forall|m: int| k < m < rest.len() implies cell_of(#[trigger] rest[m])
                != cell by {
                assert(cell_of(entities[m]) != cell);
            }
        }
        lemma_overlay_last_wins(background, rest, cell, k);
    }
}

/// Where some entity stands outside the grid, there is a first one that
/// does, and `first_stray` is its position.
pub proof fn lemma_first_stray(entities: Seq<Entity>)
    requires
        !all_in_grid(entities),
    ensures
        is_first_stray(entities, first_stray(entities)),
{
    let w = choose|k: int| 0 <= k < entities.len() && !in_grid(#[trigger] entities[k]);
    lemma_stray_has_first(entities, w);
}

proof fn lemma_stray_has_first(entities: Seq<Entity>, w: int)
    requires
        0 <= w < entities.len(),
        !in_grid(entities[w]),
    ensures
        exists|k: int| is_first_stray(entities, k),
    decreases w,
{
    if forall|j: int| 0 <= j < w ==> in_grid(#[trigger] entities[j]) {
        assert(is_first_stray(entities, w));
    } else {
        let j = choose|j: int| 0 <= j < w && !in_grid(#[trigger] entities[j]);
        lemma_stray_has_first(entities, j);
    }
}

} // verus!
