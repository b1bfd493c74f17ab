//! Installing a generated board into a session: the opening-cell checks,
//! the choice between placing voids now and leaving the board void-free
//! until the first explore, and placing the voids around that explore once.
use vstd::prelude::*;

use crate::score::ScoreState;
use crate::sync::{Session, SessionModel};
use crate::voids::{
    board_metadata, compute_void_mask, count_voids, spec_cell_entry, spec_void_mask, true_count,
};

verus! {

/// Why a board could not be set up.
#[derive(Clone, Copy, Debug, PartialEq, Eq, Structural)]
pub enum SetupError {
    /// The opening cell named by the game options is not a cell of the map.
    InvalidOpeningCell,
    /// The first explored cell is not a cell of the map.
    InvalidExplorationCell,
}

/// The void mask of a generated board: voids placed around the opening
/// cell when it is known, none otherwise.
pub open spec fn generated_mask(
    cell_count: usize,
    rng_seed: u64,
    void_count: usize,
    first_safe_cell: Option<usize>,
) -> Seq<bool> {
    match first_safe_cell {
        Some(safe) => spec_void_mask(cell_count, rng_seed, void_count, safe),
        None => Seq::new(cell_count as nat, |i: int| false),
    }
}

/// The void total recorded for a generated board: the requested count,
/// capped at one less than the cell count (the opening cell stays safe).
pub open spec fn generated_void_total(cell_count: usize, void_count: usize) -> int {
    let cap = if cell_count == 0 { 0 } else { cell_count - 1 };
    if void_count < cap { void_count as int } else { cap }
}

/// The session after installing the board of `neighbors` with void `mask`,
/// recording `void_total` voids: fresh metadata and score, revision 0, and
/// nothing pending or remembered; identity and readiness are kept.
pub open spec fn installed(
    before: SessionModel,
    neighbors: Seq<Seq<u32>>,
    mask: Seq<bool>,
    void_total: u32,
) -> SessionModel {
    SessionModel {
        metadata: Seq::new(neighbors.len(), |i: int| spec_cell_entry(neighbors[i], mask, i)),
        neighbors,
        score: ScoreState::for_map(neighbors.len() as u32, void_total),
        revision: 0,
        pending: Map::empty(),
        processed: Set::empty(),
        ..before
    }
}

/// `cell_count` unset flags.
fn unset_mask(cell_count: usize) -> (mask: Vec<bool>)
    ensures
        mask@ == Seq::new(cell_count as nat, |i: int| false),
{
    let mut mask: Vec<bool> = Vec::new();
    let mut i: usize = 0;
    while i < cell_count
        invariant
            i <= cell_count,
            mask@ == Seq::new(i as nat, |j: int| false),
        decreases cell_count - i,
    {
        mask.push(false);
        i = i + 1;
    }
    mask
}

/// Install a generated map with neighbor lists `neighbors`. An opening cell
/// outside the map is refused and nothing changes. Otherwise, with a known
/// opening cell the voids are placed around it; without one the board has
/// no voids yet. The recorded void total is `void_count` capped at one less
/// than the cell count.
pub fn install_generated_board(
    session: &mut Session,
    neighbors: Vec<Vec<u32>>,
    first_safe_cell: Option<usize>,
    rng_seed: u64,
    void_count: usize,
) -> (r: Result<(), SetupError>)
    requires
        neighbors.len() <= u32::MAX,
    ensures
        match first_safe_cell {
            Some(safe) if safe >= neighbors.len() => {
                &&& r == Err::<(), SetupError>(SetupError::InvalidOpeningCell)
                &&& final(session)@ == old(session)@
            },
            _ => {
                &&& r is Ok
                &&& final(session)@ == installed(
                    old(session)@,
                    neighbors.deep_view(),
                    generated_mask(neighbors.len(), rng_seed, void_count, first_safe_cell),
                    generated_void_total(neighbors.len(), void_count) as u32,
                )
            },
        },
{
    let cell_count = neighbors.len();
    let mask = match first_safe_cell {
        Some(safe) => {
            if safe >= cell_count {
                return Err(SetupError::InvalidOpeningCell);
            }
            compute_void_mask(cell_count, rng_seed, void_count, safe)
        },
        None => unset_mask(cell_count),
    };
    let metadata = board_metadata(&neighbors, &mask);
    let cap = if cell_count == 0 { 0 } else { cell_count - 1 };
    let void_total = if void_count < cap { void_count } else { cap };
    session.set_board(neighbors, metadata, void_total as u32);
    Ok(())
}

/// Place the voids around the first explored cell `safe`, once. When the
/// opening cell is already known nothing changes; a cell outside the map is
/// refused and nothing changes. Otherwise the board of `neighbors` is
/// installed with voids placed around `safe`, recording the number of voids
/// placed, and `safe` becomes the opening cell.
pub fn place_first_voids(
    session: &mut Session,
    first_safe_cell: &mut Option<usize>,
    neighbors: Vec<Vec<u32>>,
    safe: usize,
    rng_seed: u64,
    void_count: usize,
) -> (r: Result<(), SetupError>)
    requires
        neighbors.len() <= u32::MAX,
    ensures
        (*old(first_safe_cell)) is Some ==> {
            &&& r is Ok
            &&& final(session)@ == old(session)@
            &&& *final(first_safe_cell) == *old(first_safe_cell)
        },
        ((*old(first_safe_cell)) is None && safe >= neighbors.len()) ==> {
            &&& r == Err::<(), SetupError>(SetupError::InvalidExplorationCell)
            &&& final(session)@ == old(session)@
            &&& *final(first_safe_cell) == *old(first_safe_cell)
        },
        ((*old(first_safe_cell)) is None && safe < neighbors.len()) ==> {
            let mask = spec_void_mask(neighbors.len(), rng_seed, void_count, safe);
            &&& r is Ok
            &&& *final(first_safe_cell) == Some(safe)
            &&& final(session)@ == installed(
                old(session)@,
                neighbors.deep_view(),
                mask,
                true_count(mask) as u32,
            )
        },
{
    if first_safe_cell.is_some() {
        return Ok(());
    }
    let cell_count = neighbors.len();
    if safe >= cell_count {
        return Err(SetupError::InvalidExplorationCell);
    }
    let mask = compute_void_mask(cell_count, rng_seed, void_count, safe);
    let metadata = board_metadata(&neighbors, &mask);
    let placed = count_voids(&mask);
    session.set_board(neighbors, metadata, placed as u32);
    *first_safe_cell = Some(safe);
    Ok(())
}

} // verus!
