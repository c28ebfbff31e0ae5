//! Soundness of the island pruning rule the search applies: an open region
//! (an island) that no open cell outside it touches can only be covered by
//! tiles that lie wholly inside it, so an island smaller than every
//! remaining tile can never be covered, and a board state with such an
//! island admits no exact cover by connected tiles. Discarding those states
//! never discards a state that still has a solution.

use vstd::prelude::*;

use crate::active_board::{
    adj_closed, connected, islands_wf, lemma_frame_cells_finite, lemma_island_bounds_tile,
};
use crate::common::{tile_cells, tile_distinct, Coordinate};
use crate::solver::{cells_of_tiles, lemma_cells_of_tiles_member, lemma_tile_in_cells_of_tiles};

verus! {

/// The island pruning rule never discards a solvable state: if the open
/// cells are exactly covered by connected tiles each of at least `k` cells,
/// then every island of the open set holds at least `k` cells. Hence when
/// the search sees an island smaller than the smallest remaining tile, no
/// exact cover of the open cells by the remaining tiles can exist, and
/// reporting failure there is sound.
pub proof fn lemma_island_pruning_sound(
    open: Set<Coordinate>,
    islands: Seq<Seq<Coordinate>>,
    cover: Seq<Seq<Coordinate>>,
    k: int,
)
    requires
        islands_wf(islands, open),
        forall|d: Coordinate| #[trigger] open.contains(d) ==> crate::common::coord_in_frame(d),
        cells_of_tiles(cover) == open,
        forall|j: int|
            0 <= j < cover.len() ==> {
                &&& tile_distinct(#[trigger] cover[j])
                &&& connected(tile_cells(cover[j]))
                &&& cover[j].len() >= k
            },
    ensures
        forall|i: int| 0 <= i < islands.len() ==> (#[trigger] islands[i]).len() >= k,
{
    assert forall|i: int| 0 <= i < islands.len() implies (#[trigger] islands[i]).len() >= k by {
        let isl = islands[i];
        assert(isl.len() >= 1);
        let d = isl[0];
        assert(tile_cells(isl).contains(d));
        assert(open.contains(d));
        lemma_cells_of_tiles_member(cover, d);
        let j = choose|j: int| 0 <= j < cover.len() && tile_cells(#[trigger] cover[j]).contains(d);
        lemma_tile_in_cells_of_tiles(cover, j);
        assert(tile_cells(cover[j]).subset_of(open));
        assert(adj_closed(tile_cells(isl), open));
        assert forall|e: Coordinate| #[trigger] tile_cells(isl).contains(e) implies
            crate::common::coord_in_frame(e) by {
            assert(open.contains(e));
        }
        lemma_frame_cells_finite(tile_cells(isl));
        assert(tile_cells(isl).finite());
        assert(tile_cells(cover[j]).contains(d) && tile_cells(isl).contains(d));
        lemma_island_bounds_tile(open, tile_cells(isl), cover[j]);
        assert(cover[j].len() <= tile_cells(isl).len());
        isl.lemma_cardinality_of_set();
        assert(tile_cells(isl).len() <= isl.len());
    }
}


} // verus!
