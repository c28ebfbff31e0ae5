//! The backtracking search: place the lowest-keyed unplaced tile set so
//! that one of its orientations covers the first open cell, recurse, and
//! undo on failure. The success contract pins the outcome down: the cells
//! the appended tiles cover are exactly the cells that closed during the
//! call, the tiles are pairwise disjoint and duplicate-free, and their total
//! area equals the total size of the tile sets that were unplaced on entry.

use vstd::prelude::*;

use crate::active_board::{ActiveBoard, raster_idx};
use crate::common::{
    adjacent, chain_connected, coord_in_frame, copy_tile, has_earlier_neighbor, tile_cells,
    tile_distinct, AllTime, Coordinate, CustomBoard, SolveError, Tile, GRID_SIZE,
};
use crate::tile_helper::{fits_i32, spec_orientations, TileHelper};

verus! {

broadcast use {
    crate::common::lemma_tile_deep_view,
    crate::common::lemma_tiles_deep_view_len,
    crate::common::lemma_tiles_deep_view_index,
    crate::common::lemma_tile_sets_deep_view_len,
    crate::common::lemma_tile_sets_deep_view_index,
};

/// Total cell count of a list of tiles.
pub open spec fn tiles_area(ts: Seq<Seq<Coordinate>>) -> int
    decreases ts.len(),
{
    if ts.len() == 0 {
        0
    } else {
        tiles_area(ts.drop_last()) + ts.last().len()
    }
}

/// Total tile size of a list of orientation sets; all orientations of one
/// set share a size, and the first orientation stands for it.
pub open spec fn sets_area(ss: Seq<Seq<Seq<Coordinate>>>) -> int
    decreases ss.len(),
{
    if ss.len() == 0 {
        0
    } else {
        sets_area(ss.drop_last()) + ss.last()[0].len()
    }
}

/// Total tile size of the orientation sets whose placed flag is down.
pub open spec fn unplaced_area(ss: Seq<Seq<Seq<Coordinate>>>, placed: Seq<bool>) -> int
    decreases ss.len(),
{
    if ss.len() == 0 || ss.len() != placed.len() {
        0
    } else {
        unplaced_area(ss.drop_last(), placed.drop_last()) + if !placed.last() {
            ss.last()[0].len() as int
        } else {
            0
        }
    }
}

/// How many placed flags are down.
pub open spec fn count_unplaced(placed: Seq<bool>) -> nat
    decreases placed.len(),
{
    if placed.len() == 0 {
        0
    } else {
        count_unplaced(placed.drop_last()) + if !placed.last() {
            1nat
        } else {
            0nat
        }
    }
}

/// The union of the cells of a list of tiles.
pub open spec fn cells_of_tiles(ts: Seq<Seq<Coordinate>>) -> Set<Coordinate>
    decreases ts.len(),
{
    if ts.len() == 0 {
        Set::empty()
    } else {
        cells_of_tiles(ts.drop_last()).union(tile_cells(ts.last()))
    }
}

/// Whether no two tiles of the list share a cell.
pub open spec fn tiles_disjoint(ts: Seq<Seq<Coordinate>>) -> bool {
    forall|k1: int, k2: int|
        0 <= k1 < k2 < ts.len() ==> tile_cells(#[trigger] ts[k1]).disjoint(
            tile_cells(#[trigger] ts[k2]),
        )
}


/// `t` is `base` moved rigidly by `(dx, dy)`.
pub open spec fn is_translation_of(
    t: Seq<Coordinate>,
    base: Seq<Coordinate>,
    dx: int,
    dy: int,
) -> bool {
    &&& t.len() == base.len()
    &&& forall|i: int|
        0 <= i < t.len() ==> (#[trigger] t[i]).x == base[i].x + dx && t[i].y == base[i].y + dy
}

/// `t` is `base` moved rigidly so that the anchor landed on `t[0]`.
pub open spec fn re_anchored(t: Seq<Coordinate>, base: Seq<Coordinate>) -> bool {
    &&& base.len() >= 1
    &&& t.len() >= 1
    &&& is_translation_of(t, base, t[0].x - base[0].x, t[0].y - base[0].y)
}

/// `t` places one orientation of the stored set `s` somewhere on the grid.
pub open spec fn is_placement_of(t: Seq<Coordinate>, s: Seq<Seq<Coordinate>>) -> bool {
    exists|j: int, dx: int, dy: int|
        0 <= j < s.len() && #[trigger] is_translation_of(t, s[j], dx, dy)
}

/// An exact cover of the open cells by the tile sets still unplaced: one
/// concrete placed tile per unplaced set, each a translated orientation of
/// its set, pairwise disjoint, together exactly the open cells. The search
/// returns true exactly when its state admits one: soundness is the success
/// half of `solve`'s contract, completeness the failure half.
pub open spec fn exact_cover(
    cover: Map<int, Seq<Coordinate>>,
    ss: Seq<Seq<Seq<Coordinate>>>,
    placed: Seq<bool>,
    open: Set<Coordinate>,
) -> bool {
    &&& forall|i: int|
        0 <= i < ss.len() && !placed[i] ==> is_placement_of(#[trigger] cover[i], ss[i])
            && tile_cells(cover[i]).subset_of(open)
    &&& forall|i1: int, i2: int|
        0 <= i1 < i2 < ss.len() && !placed[i1] && !placed[i2] ==> tile_cells(
            #[trigger] cover[i1],
        ).disjoint(tile_cells(#[trigger] cover[i2]))
    &&& forall|d: Coordinate|
        #[trigger] open.contains(d) ==> exists|i: int|
            0 <= i < ss.len() && !placed[i] && tile_cells(#[trigger] cover[i]).contains(d)
}

/// One tile set key per appended tile, no key twice, every unplaced key
/// used: the solution realises exactly one placed orientation of each
/// previously unplaced tile set.
pub open spec fn placement_assignment(
    assign: Seq<int>,
    tiles: Seq<Seq<Coordinate>>,
    ss: Seq<Seq<Seq<Coordinate>>>,
    placed: Seq<bool>,
) -> bool {
    &&& assign.len() == tiles.len()
    &&& forall|k: int|
        0 <= k < assign.len() ==> {
            &&& 0 <= #[trigger] assign[k] < ss.len()
            &&& !placed[assign[k]]
            &&& is_placement_of(tiles[k], ss[assign[k]])
        }
    &&& forall|k1: int, k2: int| 0 <= k1 < k2 < assign.len() ==> assign[k1] != assign[k2]
    &&& forall|i: int|
        0 <= i < ss.len() && !placed[i] ==> exists|k: int|
            0 <= k < assign.len() && #[trigger] assign[k] == i
}

/// An exact cover of the open cells by the whole catalogue: one placed
/// tile per base shape, each a translated orientation of that shape,
/// pairwise disjoint, together exactly the open cells.
pub open spec fn catalogue_cover(
    cover: Map<int, Seq<Coordinate>>,
    ts: Seq<Seq<Coordinate>>,
    open: Set<Coordinate>,
) -> bool {
    &&& forall|i: int|
        0 <= i < ts.len() ==> is_placement_of(#[trigger] cover[i], spec_orientations(ts[i]))
            && tile_cells(cover[i]).subset_of(open)
    &&& forall|i1: int, i2: int|
        0 <= i1 < i2 < ts.len() ==> tile_cells(#[trigger] cover[i1]).disjoint(
            tile_cells(#[trigger] cover[i2]),
        )
    &&& forall|d: Coordinate|
        #[trigger] open.contains(d) ==> exists|i: int|
            0 <= i < ts.len() && tile_cells(#[trigger] cover[i]).contains(d)
}

/// A translation keeps lengths, duplicate-freedom and listing-order
/// connectivity, and re-anchors the shape on wherever its anchor landed.
pub proof fn lemma_translation_facts(t: Seq<Coordinate>, base: Seq<Coordinate>, dx: int, dy: int)
    requires
        base.len() >= 1,
        is_translation_of(t, base, dx, dy),
    ensures
        t.len() == base.len(),
        re_anchored(t, base),
        tile_distinct(base) ==> tile_distinct(t),
        chain_connected(base) ==> chain_connected(t),
{
    assert(t[0].x == base[0].x + dx && t[0].y == base[0].y + dy);
    assert(is_translation_of(t, base, t[0].x - base[0].x, t[0].y - base[0].y));
    if tile_distinct(base) {
        assert forall|i: int, j: int| 0 <= i < j < t.len() implies t[i] != t[j] by {
            if t[i] == t[j] {
                assert(base[i].x == base[j].x && base[i].y == base[j].y);
                assert(base[i] == base[j]);
            }
        }
    }
    if chain_connected(base) {
        assert forall|k: int| 1 <= k < t.len() implies has_earlier_neighbor(t, k) by {
            assert(has_earlier_neighbor(base, k));
            let j = choose|j: int| 0 <= j < k && adjacent(#[trigger] base[j], base[k]);
            assert(adjacent(t[j], t[k]));
        }
    }
}

/// Two translations of one shape that anchor on the same cell are the same
/// placed tile.
pub proof fn lemma_same_anchor_same_tile(
    t1: Seq<Coordinate>,
    t2: Seq<Coordinate>,
    base: Seq<Coordinate>,
)
    requires
        base.len() >= 1,
        re_anchored(t1, base),
        re_anchored(t2, base),
        t1[0] == t2[0],
    ensures
        t1 == t2,
{
    assert forall|i: int| 0 <= i < t1.len() implies t1[i] == t2[i] by {
        assert(t1[i].x == base[i].x + (t1[0].x - base[0].x));
        assert(t2[i].x == base[i].x + (t2[0].x - base[0].x));
        assert(t1[i].y == base[i].y + (t1[0].y - base[0].y));
        assert(t2[i].y == base[i].y + (t2[0].y - base[0].y));
    }
    assert(t1 =~= t2);
}

/// Placing the cover's tile for one unplaced set leaves a cover of what
/// stays open by the sets that stay unplaced.
proof fn lemma_cover_after_place(
    cover: Map<int, Seq<Coordinate>>,
    ss: Seq<Seq<Seq<Coordinate>>>,
    placed: Seq<bool>,
    open: Set<Coordinate>,
    key: int,
)
    requires
        exact_cover(cover, ss, placed, open),
        ss.len() == placed.len(),
        0 <= key < ss.len(),
        !placed[key],
    ensures
        exact_cover(
            cover,
            ss,
            placed.update(key, true),
            open.difference(tile_cells(cover[key])),
        ),
{
    let placed2 = placed.update(key, true);
    let open2 = open.difference(tile_cells(cover[key]));
    assert forall|i: int| 0 <= i < ss.len() && !placed2[i] implies is_placement_of(
        #[trigger] cover[i],
        ss[i],
    ) && tile_cells(cover[i]).subset_of(open2) by {
        assert(i != key);
        assert(!placed[i]);
        assert(is_placement_of(cover[i], ss[i]));
        assert(tile_cells(cover[i]).subset_of(open));
        assert forall|d: Coordinate| #[trigger] tile_cells(cover[i]).contains(d) implies
            open2.contains(d) by {
            assert(open.contains(d));
            if i < key {
                assert(tile_cells(cover[i]).disjoint(tile_cells(cover[key])));
            } else {
                assert(tile_cells(cover[key]).disjoint(tile_cells(cover[i])));
            }
            assert(!tile_cells(cover[key]).contains(d));
        }
        assert(tile_cells(cover[i]).subset_of(open2));
    }
    assert forall|i1: int, i2: int|
        0 <= i1 < i2 < ss.len() && !placed2[i1] && !placed2[i2] implies tile_cells(
        #[trigger] cover[i1],
    ).disjoint(tile_cells(#[trigger] cover[i2])) by {
        assert(!placed[i1] && !placed[i2]);
    }
    assert forall|d: Coordinate| #[trigger] open2.contains(d) implies exists|i: int|
        0 <= i < ss.len() && !placed2[i] && tile_cells(#[trigger] cover[i]).contains(d) by {
        assert(open.contains(d));
        let i = choose|i: int|
            0 <= i < ss.len() && !placed[i] && tile_cells(#[trigger] cover[i]).contains(d);
        assert(i != key);
        assert(!placed2[i]);
        assert(tile_cells(cover[i]).contains(d));
    }
    assert(exact_cover(cover, ss, placed2, open2));
}

/// With every flag down, every set counts as unplaced.
proof fn lemma_count_unplaced_none_placed(placed: Seq<bool>)
    requires
        forall|i: int| 0 <= i < placed.len() ==> !placed[i],
    ensures
        count_unplaced(placed) == placed.len(),
    decreases placed.len(),
{
    if placed.len() > 0 {
        lemma_count_unplaced_none_placed(placed.drop_last());
    }
}

/// With every flag up, nothing counts as unplaced.
proof fn lemma_count_unplaced_all_placed(placed: Seq<bool>)
    requires
        forall|i: int| 0 <= i < placed.len() ==> placed[i],
    ensures
        count_unplaced(placed) == 0,
    decreases placed.len(),
{
    if placed.len() > 0 {
        lemma_count_unplaced_all_placed(placed.drop_last());
    }
}

/// Raising one placed flag removes exactly that set's size from the
/// unplaced area.
proof fn lemma_unplaced_area_update(ss: Seq<Seq<Seq<Coordinate>>>, placed: Seq<bool>, i: int)
    requires
        ss.len() == placed.len(),
        0 <= i < placed.len(),
        !placed[i],
    ensures
        unplaced_area(ss, placed.update(i, true)) == unplaced_area(ss, placed) - ss[i][0].len(),
    decreases ss.len(),
{
    let p2 = placed.update(i, true);
    if i == ss.len() - 1 {
        assert(p2.drop_last() =~= placed.drop_last());
    } else {
        assert(p2.drop_last() =~= placed.drop_last().update(i, true));
        lemma_unplaced_area_update(ss.drop_last(), placed.drop_last(), i);
        assert(ss.drop_last()[i] == ss[i]);
    }
}

/// Raising one placed flag lowers the number of unplaced sets by one.
proof fn lemma_count_unplaced_update(placed: Seq<bool>, i: int)
    requires
        0 <= i < placed.len(),
        !placed[i],
    ensures
        count_unplaced(placed.update(i, true)) == count_unplaced(placed) - 1,
    decreases placed.len(),
{
    let p2 = placed.update(i, true);
    if i == placed.len() - 1 {
        assert(p2.drop_last() =~= placed.drop_last());
    } else {
        assert(p2.drop_last() =~= placed.drop_last().update(i, true));
        lemma_count_unplaced_update(placed.drop_last(), i);
    }
}

/// With every flag up there is nothing unplaced.
proof fn lemma_unplaced_area_all_placed(ss: Seq<Seq<Seq<Coordinate>>>, placed: Seq<bool>)
    requires
        ss.len() == placed.len(),
        forall|i: int| 0 <= i < placed.len() ==> placed[i],
    ensures
        unplaced_area(ss, placed) == 0,
    decreases ss.len(),
{
    if ss.len() > 0 {
        lemma_unplaced_area_all_placed(ss.drop_last(), placed.drop_last());
    }
}

/// With every flag down the unplaced area is the whole area.
proof fn lemma_unplaced_area_none_placed(ss: Seq<Seq<Seq<Coordinate>>>, placed: Seq<bool>)
    requires
        ss.len() == placed.len(),
        forall|i: int| 0 <= i < placed.len() ==> !placed[i],
    ensures
        unplaced_area(ss, placed) == sets_area(ss),
    decreases ss.len(),
{
    if ss.len() > 0 {
        lemma_unplaced_area_none_placed(ss.drop_last(), placed.drop_last());
    }
}

/// Recursively placing tiles at the first open cell until every tile set is
/// placed. On success the accumulated solution (deepest placement first,
/// this call's own tile appended last) holds one placed orientation of each
/// previously unplaced tile set and covers exactly the cells that closed
/// during the call. On failure the board and the accumulator are exactly as
/// they were, and the state admits no exact cover of its open cells by its
/// unplaced tile sets: the search never misses a solvable state.
pub fn solve(active_board: &mut ActiveBoard, solution: &mut Vec<Tile>) -> (found: bool)
    requires
        old(active_board).wf(),
    ensures
        final(active_board).wf(),
        final(active_board).sets() == old(active_board).sets(),
        !found ==> {
            &&& final(active_board).open_set() == old(active_board).open_set()
            &&& final(active_board).placed() == old(active_board).placed()
            &&& final(solution)@ == old(solution)@
            &&& forall|cover: Map<int, Seq<Coordinate>>|
                !(#[trigger] exact_cover(
                    cover,
                    old(active_board).sets(),
                    old(active_board).placed(),
                    old(active_board).open_set(),
                ))
        },
        found ==> {
            let appended = final(solution).deep_view().skip(old(solution)@.len() as int);
            &&& final(solution)@.len() >= old(solution)@.len()
            &&& final(solution).deep_view().take(old(solution)@.len() as int) == old(
                solution,
            ).deep_view()
            &&& forall|i: int|
                0 <= i < final(active_board).num_sets() ==> final(active_board).placed()[i]
            &&& forall|k: int|
                0 <= k < appended.len() ==> tile_distinct(#[trigger] appended[k]) && tile_cells(
                    appended[k],
                ).subset_of(old(active_board).open_set())
            &&& tiles_disjoint(appended)
            &&& final(active_board).open_set().subset_of(old(active_board).open_set())
            &&& cells_of_tiles(appended) == old(active_board).open_set().difference(
                final(active_board).open_set(),
            )
            &&& tiles_area(appended) == unplaced_area(
                old(active_board).sets(),
                old(active_board).placed(),
            )
            &&& appended.len() == count_unplaced(old(active_board).placed())
            &&& exists|assign: Seq<int>|
                placement_assignment(
                    assign,
                    appended,
                    old(active_board).sets(),
                    old(active_board).placed(),
                )
            &&& ((exists|s: int|
                0 <= s < old(active_board).num_sets() && !old(active_board).placed()[s])
                ==> (forall|islands2: Seq<Seq<Coordinate>>|
                #[trigger] crate::active_board::islands_wf(
                    islands2,
                    old(active_board).open_set(),
                ) ==> forall|i2: int|
                    #![trigger islands2[i2]]
                    0 <= i2 < islands2.len() ==> exists|s: int|
                        0 <= s < old(active_board).sets().len() && !old(active_board).placed()[s]
                            && islands2[i2].len() >= (#[trigger] old(
                            active_board,
                        ).sets()[s])[0].len()))
        },
    decreases count_unplaced(active_board.placed()),
{
    let ghost sets0 = old(active_board).sets();
    let ghost placed0 = old(active_board).placed();
    let ghost open0 = old(active_board).open_set();
    let ghost sol0 = old(solution)@;

    let mut tile_set = match active_board.get_next_tile_set() {
        Some(ts) => ts,
        None => {
            proof {
                lemma_unplaced_area_all_placed(sets0, placed0);
                lemma_count_unplaced_all_placed(placed0);
                assert(solution.deep_view().skip(sol0.len() as int) =~= Seq::<
                    Seq<Coordinate>,
                >::empty());
                assert(solution.deep_view().take(sol0.len() as int) =~= solution.deep_view());
                assert(open0.difference(open0) =~= Set::empty());
                assert(placement_assignment(
                    Seq::<int>::empty(),
                    solution.deep_view().skip(sol0.len() as int),
                    sets0,
                    placed0,
                ));
                assert(!(exists|s: int| 0 <= s < sets0.len() && !placed0[s]));
            }
            return true;
        },
    };
    let key = tile_set.key();
    let ghost size_key = active_board.set_size(key as int);

    // pruning: an open region smaller than every remaining tile can never
    // be covered, so this branch of the search is dead
    let islands = active_board.find_islands();
    let smallest_area = active_board.smallest_unplaced_tile_size();
    let island_count = islands.len();
    proof {
        assert forall|i: int| 0 <= i < sets0.len() && !placed0[i] implies smallest_area <= (
        #[trigger] sets0[i])[0].len() by {
            assert(active_board.set_size(i) == sets0[i][0].len());
            assert(smallest_area <= active_board.set_size(i));
        }
    }
    let ghost s0: int = choose|i: int|
        0 <= i < active_board.num_sets() && !active_board.placed()[i] && smallest_area
            == active_board.set_size(i);
    proof {
        assert(0 <= s0 < sets0.len() && !placed0[s0] && smallest_area == sets0[s0][0].len());
    }
    let mut ii: usize = 0;
    while ii < island_count
        invariant
            ii <= island_count,
            island_count == islands@.len(),
            *active_board == *old(active_board),
            *solution == *old(solution),
            old(active_board).wf(),
            sets0 == old(active_board).sets(),
            placed0 == old(active_board).placed(),
            open0 == old(active_board).open_set(),
            crate::active_board::islands_wf(islands.deep_view(), open0),
            0 <= key < sets0.len(),
            !placed0[key as int],
            forall|i: int|
                0 <= i < sets0.len() && !placed0[i] ==> smallest_area
                    <= (#[trigger] sets0[i])[0].len(),
            forall|k: int|
                0 <= k < ii ==> (#[trigger] islands.deep_view()[k]).len() >= smallest_area,
        decreases island_count - ii,
    {
        if islands[ii].len() < smallest_area {
            proof {
                // an island smaller than every remaining tile defeats any
                // exact cover: a cover tile touching it would have to fit
                // inside it
                let isl = islands.deep_view()[ii as int];
                assert(islands@[ii as int]@ == isl);
                assert(isl.len() < smallest_area);
                assert forall|cover: Map<int, Seq<Coordinate>>|
                    !(#[trigger] exact_cover(cover, sets0, placed0, open0)) by {
                    if exact_cover(cover, sets0, placed0, open0) {
                        assert(isl.len() >= 1);
                        let d = isl[0];
                        assert(tile_cells(isl).contains(d));
                        assert(open0.contains(d));
                        let i = choose|i: int|
                            0 <= i < sets0.len() && !placed0[i] && tile_cells(
                                #[trigger] cover[i],
                            ).contains(d);
                        assert(is_placement_of(cover[i], sets0[i]));
                        let (j, dx, dy) = choose|j: int, dx: int, dy: int|
                            0 <= j < sets0[i].len() && #[trigger] is_translation_of(
                                cover[i],
                                sets0[i][j],
                                dx,
                                dy,
                            );
                        assert(crate::active_board::tile_set_wf(sets0[i]));
                        assert(crate::active_board::orientation_wf(sets0[i][j], sets0[i][0]));
                        lemma_translation_facts(cover[i], sets0[i][j], dx, dy);
                        crate::active_board::lemma_chain_connected(cover[i]);
                        assert forall|e: Coordinate|
                            #[trigger] tile_cells(isl).contains(e) implies coord_in_frame(e) by {
                            assert(open0.contains(e));
                        }
                        crate::active_board::lemma_frame_cells_finite(tile_cells(isl));
                        assert(tile_cells(cover[i]).contains(d) && tile_cells(isl).contains(d));
                        crate::active_board::lemma_island_bounds_tile(
                            open0,
                            tile_cells(isl),
                            cover[i],
                        );
                        isl.lemma_cardinality_of_set();
                        assert(cover[i].len() <= isl.len());
                        assert(cover[i].len() == sets0[i][j].len());
                        assert(sets0[i][j].len() == sets0[i][0].len());
                        assert(smallest_area <= sets0[i][0].len());
                        assert(false);
                    }
                }
            }
            return false;
        }
        proof {
            assert(islands@[ii as int]@ == islands.deep_view()[ii as int]);
        }
        ii += 1;
    }

    proof {
        assert(tile_set.tiles.deep_view() == sets0[key as int]);
        assert(crate::active_board::tile_set_wf(sets0[key as int]));
        assert forall|k: int| 0 <= k < 8 implies {
            &&& (#[trigger] tile_set.tiles@[k])@.len() == size_key
            &&& tile_distinct(tile_set.tiles@[k]@)
            &&& crate::common::tile_rel_bounded(tile_set.tiles@[k]@)
            &&& tile_set.tiles@[k]@[0] == tile_set.tiles@[0]@[0]
        } by {
            assert(tile_set.tiles@[k]@ == tile_set.tiles.deep_view()[k]);
            assert(tile_set.tiles@[0]@ == tile_set.tiles.deep_view()[0]);
            assert(crate::active_board::orientation_wf(
                sets0[key as int][k],
                sets0[key as int][0],
            ));
            assert(crate::active_board::orientation_wf(
                sets0[key as int][0],
                sets0[key as int][0],
            ));
        }
        assert(tile_set.tiles@[0]@ == sets0[key as int][0]);
        assert(coord_in_frame(tile_set.tiles@[0]@[0]));
        assert(size_key >= 1);
        assert forall|k: int| 0 <= k < 8 implies re_anchored(
            (#[trigger] tile_set.tiles@[k])@,
            sets0[key as int][k],
        ) by {
            let b = sets0[key as int][k];
            assert(tile_set.tiles@[k]@ == b);
            assert(is_translation_of(b, b, b[0].x - b[0].x, b[0].y - b[0].y));
        }
    }

    let mut open_coor_opt = active_board.get_next_open_coor(None);
    proof {
        // any exact cover must anchor this set's tile on an open cell, so
        // the first scan position bounds every cover's anchor from below
        assert forall|cover: Map<int, Seq<Coordinate>>|
            #[trigger] exact_cover(cover, sets0, placed0, open0) implies open0.contains(
            cover[key as int][0],
        ) && coord_in_frame(cover[key as int][0]) by {
            assert(is_placement_of(cover[key as int], sets0[key as int]));
            let (j, dx, dy) = choose|j: int, dx: int, dy: int|
                0 <= j < sets0[key as int].len() && #[trigger] is_translation_of(
                    cover[key as int],
                    sets0[key as int][j],
                    dx,
                    dy,
                );
            assert(crate::active_board::orientation_wf(
                sets0[key as int][j],
                sets0[key as int][0],
            ));
            assert(cover[key as int].len() == sets0[key as int][j].len());
            assert(cover[key as int].len() >= 1);
            assert(tile_cells(cover[key as int]).contains(cover[key as int][0]));
            assert(open0.contains(cover[key as int][0]));
        }
        match open_coor_opt {
            Some(c1) => {
                assert forall|cover: Map<int, Seq<Coordinate>>|
                    #[trigger] exact_cover(cover, sets0, placed0, open0) implies raster_idx(
                    cover[key as int][0],
                ) >= raster_idx(c1) by {
                    assert(open0.contains(cover[key as int][0]));
                    assert(raster_idx(cover[key as int][0]) > -1);
                }
            },
            None => {
                assert forall|cover: Map<int, Seq<Coordinate>>|
                    !(#[trigger] exact_cover(cover, sets0, placed0, open0)) by {
                    if exact_cover(cover, sets0, placed0, open0) {
                        assert(open0.contains(cover[key as int][0]));
                        assert(raster_idx(cover[key as int][0]) <= -1);
                        assert(coord_in_frame(cover[key as int][0]));
                        assert(raster_idx(cover[key as int][0]) >= 0);
                        assert(false);
                    }
                }
            },
        }
    }
    while open_coor_opt.is_some()
        invariant
            active_board.wf(),
            sets0 == old(active_board).sets(),
            placed0 == old(active_board).placed(),
            open0 == old(active_board).open_set(),
            sol0 == old(solution)@,
            active_board.sets() == sets0,
            active_board.placed() == placed0,
            active_board.open_set() == open0,
            solution@ == sol0,
            0 <= key < active_board.num_sets(),
            !placed0[key as int],
            size_key == active_board.set_size(key as int),
            tile_set.key == key,
            tile_set.tiles@.len() == 8,
            forall|k: int|
                0 <= k < 8 ==> {
                    &&& (#[trigger] tile_set.tiles@[k])@.len() == size_key
                    &&& tile_distinct(tile_set.tiles@[k]@)
                    &&& crate::common::tile_rel_bounded(tile_set.tiles@[k]@)
                    &&& tile_set.tiles@[k]@[0] == tile_set.tiles@[0]@[0]
                },
            size_key >= 1,
            coord_in_frame(tile_set.tiles@[0]@[0]),
            forall|j: int|
                0 <= j < 8 ==> re_anchored((#[trigger] tile_set.tiles@[j])@, sets0[key as int][j]),
            crate::active_board::islands_wf(islands.deep_view(), open0),
            forall|k: int|
                0 <= k < islands.deep_view().len() ==> (
                #[trigger] islands.deep_view()[k]).len() >= smallest_area,
            0 <= s0 < sets0.len() && !placed0[s0] && smallest_area == sets0[s0][0].len(),
            open_coor_opt is Some ==> open0.contains(open_coor_opt.unwrap()),
            open_coor_opt is Some ==> (forall|cover: Map<int, Seq<Coordinate>>|
                #[trigger] exact_cover(cover, sets0, placed0, open0) ==> raster_idx(
                    cover[key as int][0],
                ) >= raster_idx(open_coor_opt.unwrap())),
            open_coor_opt is None ==> (forall|cover: Map<int, Seq<Coordinate>>|
                !(#[trigger] exact_cover(cover, sets0, placed0, open0))),
        decreases (if open_coor_opt is Some {
            (GRID_SIZE * GRID_SIZE) as int - raster_idx(open_coor_opt.unwrap())
        } else {
            0int
        }),
    {
        let coor = open_coor_opt.unwrap();
        proof {
            assert(open0.contains(coor));
            assert(coord_in_frame(coor));
            assert(coord_in_frame(tile_set.tiles@[0]@[0]));
            assert(fits_i32(coor.x - tile_set.tiles@[0]@[0].x));
            assert(fits_i32(coor.y - tile_set.tiles@[0]@[0].y));
        }
        let offset = TileHelper::calc_offset(&tile_set.tiles[0], &coor);

        // re-anchor every orientation on the open cell
        let ghost anchor0 = tile_set.tiles@[0]@[0];
        let orientation_count = tile_set.tiles.len();
        let mut k: usize = 0;
        while k < orientation_count
            invariant
                tile_set.key == key,
                orientation_count == 8,
                tile_set.tiles@.len() == 8,
                k <= 8,
                coord_in_frame(coor),
                coord_in_frame(anchor0),
                offset.x == coor.x - anchor0.x,
                offset.y == coor.y - anchor0.y,
                size_key >= 1,
                forall|j: int|
                    k <= j < 8 ==> {
                        &&& (#[trigger] tile_set.tiles@[j])@.len() == size_key
                        &&& tile_distinct(tile_set.tiles@[j]@)
                        &&& crate::common::tile_rel_bounded(tile_set.tiles@[j]@)
                        &&& tile_set.tiles@[j]@[0] == anchor0
                        &&& re_anchored(tile_set.tiles@[j]@, sets0[key as int][j])
                    },
                forall|j: int|
                    0 <= j < k ==> {
                        &&& (#[trigger] tile_set.tiles@[j])@.len() == size_key
                        &&& tile_distinct(tile_set.tiles@[j]@)
                        &&& crate::common::tile_rel_bounded(tile_set.tiles@[j]@)
                        &&& tile_set.tiles@[j]@[0] == coor
                        &&& re_anchored(tile_set.tiles@[j]@, sets0[key as int][j])
                    },
            decreases orientation_count - k,
        {
            let ghost pre = tile_set.tiles@[k as int]@;
            proof {
                assert forall|i: int| 0 <= i < pre.len() implies {
                    &&& fits_i32((#[trigger] pre[i]).x + offset.x)
                    &&& fits_i32(pre[i].y + offset.y)
                } by {
                    assert(-(GRID_SIZE - 1) <= pre[i].x - pre[0].x <= GRID_SIZE - 1);
                    assert(pre[0] == anchor0);
                }
            }
            let row = &mut tile_set.tiles[k];
            TileHelper::translate(row, &offset);
            proof {
                let post = tile_set.tiles@[k as int]@;
                assert(post.len() == pre.len());
                assert forall|i: int, j: int| 0 <= i < j < post.len() implies post[i] != post[j]
                    by {
                    if post[i] == post[j] {
                        assert(pre[i].x + offset.x == pre[j].x + offset.x);
                        assert(pre[i] == pre[j]);
                    }
                }
                assert(post[0] == coor);
                assert(crate::common::tile_rel_bounded(post));
                // the translated copy is still a rigid move of its stored
                // orientation
                let b = sets0[key as int][k as int];
                assert(re_anchored(pre, b));
                assert forall|i: int| 0 <= i < post.len() implies (#[trigger] post[i]).x == b[i].x
                    + (post[0].x - b[0].x) && post[i].y == b[i].y + (post[0].y - b[0].y) by {
                    assert(pre[i].x == b[i].x + (pre[0].x - b[0].x));
                    assert(pre[i].y == b[i].y + (pre[0].y - b[0].y));
                    assert(post[i].x == pre[i].x + offset.x);
                    assert(post[i].y == pre[i].y + offset.y);
                }
                assert(is_translation_of(post, b, post[0].x - b[0].x, post[0].y - b[0].y));
                assert(re_anchored(post, b));
            }
            k += 1;
        }

        // try each orientation at this cell
        let mut t: usize = 0;
        while t < orientation_count
            invariant
                active_board.wf(),
                sets0 == old(active_board).sets(),
                placed0 == old(active_board).placed(),
                open0 == old(active_board).open_set(),
                sol0 == old(solution)@,
                active_board.sets() == sets0,
                active_board.placed() == placed0,
                active_board.open_set() == open0,
                solution@ == sol0,
                0 <= key < active_board.num_sets(),
                !placed0[key as int],
                size_key == active_board.set_size(key as int),
                tile_set.key == key,
                orientation_count == 8,
                tile_set.tiles@.len() == 8,
                t <= 8,
                coord_in_frame(coor),
                size_key >= 1,
                forall|j: int|
                    0 <= j < 8 ==> {
                        &&& (#[trigger] tile_set.tiles@[j])@.len() == size_key
                        &&& tile_distinct(tile_set.tiles@[j]@)
                        &&& crate::common::tile_rel_bounded(tile_set.tiles@[j]@)
                        &&& tile_set.tiles@[j]@[0] == coor
                        &&& re_anchored(tile_set.tiles@[j]@, sets0[key as int][j])
                    },
                forall|cover: Map<int, Seq<Coordinate>>|
                    #[trigger] exact_cover(cover, sets0, placed0, open0) ==> forall|j: int|
                        0 <= j < t ==> cover[key as int] != (#[trigger] tile_set.tiles@[j])@,
                crate::active_board::islands_wf(islands.deep_view(), open0),
                forall|k: int|
                    0 <= k < islands.deep_view().len() ==> (
                    #[trigger] islands.deep_view()[k]).len() >= smallest_area,
                0 <= s0 < sets0.len() && !placed0[s0] && smallest_area == sets0[s0][0].len(),
            decreases orientation_count - t,
        {
            let ghost tseq = tile_set.tiles@[t as int]@;
            let placed_ok = active_board.place_tile(key, &tile_set.tiles[t]);
            if placed_ok {
                let ghost cells = tile_cells(tseq);
                let ghost open1 = active_board.open_set();
                let ghost placed1 = active_board.placed();
                proof {
                    assert(cells.subset_of(open0));
                    assert(open1 == open0.difference(cells));
                    assert(placed1 == placed0.update(key as int, true));
                    lemma_count_unplaced_update(placed0, key as int);
                }
                let ghost sol_mid_vec = *solution;
                let found = solve(active_board, solution);
                if found {
                    let ghost open2 = active_board.open_set();
                    let ghost rec_appended = solution.deep_view().skip(sol0.len() as int);
                    proof {
                        assert(sol_mid_vec@ == sol0);
                        lemma_deep_view_determined(sol_mid_vec, *old(solution));
                        assert(solution.deep_view().take(sol0.len() as int) == old(
                            solution,
                        ).deep_view());
                    }
                    let ghost sol_rec = solution.deep_view();
                    solution.push(copy_tile(&tile_set.tiles[t]));
                    proof {
                        let appended = solution.deep_view().skip(sol0.len() as int);
                        assert(solution.deep_view() =~= sol_rec.push(tseq));
                        assert(appended =~= rec_appended.push(tseq));
                        assert(solution.deep_view().take(sol0.len() as int) =~= sol_rec.take(
                            sol0.len() as int,
                        ));
                        // the union picks up exactly this tile's cells
                        assert(appended.drop_last() =~= rec_appended);
                        assert(appended.last() == tseq);
                        assert(cells_of_tiles(appended) == cells_of_tiles(rec_appended).union(
                            cells,
                        ));
                        assert(cells_of_tiles(rec_appended) == open1.difference(open2));
                        assert forall|d: Coordinate|
                            #[trigger] cells_of_tiles(appended).contains(d) == open0.difference(
                                open2,
                            ).contains(d) by {
                            assert(open1 == open0.difference(cells));
                            assert(open2.subset_of(open1));
                        }
                        assert(cells_of_tiles(appended) =~= open0.difference(open2));
                        // every appended tile is inside the entry open set
                        assert forall|kk: int| 0 <= kk < appended.len() implies tile_distinct(
                            #[trigger] appended[kk],
                        ) && tile_cells(appended[kk]).subset_of(open0) by {
                            if kk < rec_appended.len() {
                                assert(appended[kk] == rec_appended[kk]);
                                assert(tile_cells(rec_appended[kk]).subset_of(open1));
                            } else {
                                assert(appended[kk] == tseq);
                            }
                        }
                        // disjointness: the recursive tiles live in the grid
                        // left after this placement
                        assert forall|k1: int, k2: int| 0 <= k1 < k2 < appended.len() implies
                            tile_cells(#[trigger] appended[k1]).disjoint(
                            tile_cells(#[trigger] appended[k2]),
                        ) by {
                            if k2 == appended.len() - 1 {
                                assert(appended[k1] == rec_appended[k1]);
                                assert(appended[k2] == tseq);
                                assert(tile_cells(rec_appended[k1]).subset_of(open1));
                                assert forall|d: Coordinate|
                                    tile_cells(appended[k1]).contains(d) implies !tile_cells(
                                    appended[k2],
                                ).contains(d) by {
                                    assert(open1.contains(d));
                                    assert(open1 == open0.difference(cells));
                                }
                            } else {
                                assert(appended[k1] == rec_appended[k1]);
                                assert(appended[k2] == rec_appended[k2]);
                            }
                        }
                        // area bookkeeping
                        assert(tiles_area(appended) == tiles_area(rec_appended) + tseq.len());
                        assert(tiles_area(rec_appended) == unplaced_area(sets0, placed1));
                        lemma_unplaced_area_update(sets0, placed0, key as int);
                        assert(tseq.len() == size_key);
                        assert(open2.subset_of(open0));
                        // one tile per previously unplaced set: extend the
                        // recursion's assignment with this set's key
                        assert(rec_appended.len() == count_unplaced(placed1));
                        assert(appended.len() == count_unplaced(placed0));
                        let assign_rec = choose|a: Seq<int>|
                            placement_assignment(a, rec_appended, sets0, placed1);
                        let assign = assign_rec.push(key as int);
                        assert(placement_assignment(assign, appended, sets0, placed0)) by {
                            assert(assign.len() == appended.len());
                            assert forall|kk: int| 0 <= kk < assign.len() implies {
                                &&& 0 <= #[trigger] assign[kk] < sets0.len()
                                &&& !placed0[assign[kk]]
                                &&& is_placement_of(appended[kk], sets0[assign[kk]])
                            } by {
                                if kk < assign_rec.len() {
                                    assert(assign[kk] == assign_rec[kk]);
                                    assert(appended[kk] == rec_appended[kk]);
                                    assert(!placed1[assign_rec[kk]]);
                                    assert(assign_rec[kk] != key);
                                } else {
                                    assert(assign[kk] == key as int);
                                    assert(appended[kk] == tseq);
                                    let b = sets0[key as int][t as int];
                                    assert(re_anchored(tseq, b));
                                    assert(is_translation_of(
                                        tseq,
                                        b,
                                        tseq[0].x - b[0].x,
                                        tseq[0].y - b[0].y,
                                    ));
                                    assert(is_placement_of(tseq, sets0[key as int]));
                                }
                            }
                            assert forall|k1: int, k2: int|
                                0 <= k1 < k2 < assign.len() implies assign[k1] != assign[k2] by {
                                if k2 < assign_rec.len() {
                                    assert(assign[k1] == assign_rec[k1]);
                                    assert(assign[k2] == assign_rec[k2]);
                                } else {
                                    assert(assign[k1] == assign_rec[k1]);
                                    assert(assign[k2] == key as int);
                                    assert(!placed1[assign_rec[k1]]);
                                }
                            }
                            assert forall|i: int|
                                0 <= i < sets0.len() && !placed0[i] implies exists|kk: int|
                                0 <= kk < assign.len() && #[trigger] assign[kk] == i by {
                                if i == key as int {
                                    assert(assign[assign.len() - 1] == i);
                                } else {
                                    assert(!placed1[i]);
                                    let kk = choose|kk: int|
                                        0 <= kk < assign_rec.len() && #[trigger] assign_rec[kk]
                                            == i;
                                    assert(assign[kk] == i);
                                }
                            }
                        }
                        assert(exists|a: Seq<int>|
                            placement_assignment(a, appended, sets0, placed0));
                        // the island scan completed before any placement, so
                        // no decomposition of the entry state's open cells
                        // holds an island smaller than every unplaced tile:
                        // connected, adjacency-closed components are unique
                        assert forall|islands2: Seq<Seq<Coordinate>>|
                            #[trigger] crate::active_board::islands_wf(
                            islands2,
                            open0,
                        ) implies forall|i2: int|
                            #![trigger islands2[i2]]
                            0 <= i2 < islands2.len() ==> exists|si: int|
                                0 <= si < sets0.len() && !placed0[si] && islands2[i2].len() >= (
                                #[trigger] sets0[si])[0].len() by {
                            assert forall|i2: int|
                                #![trigger islands2[i2]]
                                0 <= i2 < islands2.len() implies exists|si: int|
                                0 <= si < sets0.len() && !placed0[si] && islands2[i2].len() >= (
                                #[trigger] sets0[si])[0].len() by {
                                let isl2 = islands2[i2];
                                assert(isl2.len() >= 1);
                                let d = isl2[0];
                                assert(tile_cells(isl2).contains(d));
                                assert(open0.contains(d));
                                let k = choose|k: int|
                                    0 <= k < islands.deep_view().len() && tile_cells(
                                        #[trigger] islands.deep_view()[k],
                                    ).contains(d);
                                let isl1 = islands.deep_view()[k];
                                assert(tile_cells(isl1).contains(d) && tile_cells(isl2).contains(
                                    d,
                                ));
                                crate::active_board::lemma_connected_within_island(
                                    open0,
                                    tile_cells(isl1),
                                    tile_cells(isl2),
                                );
                                crate::active_board::lemma_connected_within_island(
                                    open0,
                                    tile_cells(isl2),
                                    tile_cells(isl1),
                                );
                                assert(tile_cells(isl1) =~= tile_cells(isl2));
                                crate::active_board::lemma_distinct_cells_count(isl1);
                                crate::active_board::lemma_distinct_cells_count(isl2);
                                assert(isl2.len() == isl1.len());
                                assert(isl1.len() >= smallest_area);
                                assert(0 <= s0 < sets0.len() && !placed0[s0] && isl2.len()
                                    >= sets0[s0][0].len());
                            }
                        }
                    }
                    return true;
                }
                proof {
                    assert(active_board.open_set() == open1);
                    assert(active_board.placed() == placed1);
                    assert(tile_set.tiles@[t as int]@ == tseq);
                    assert(crate::common::tile_in_frame(tseq)) by {
                        assert forall|i: int| 0 <= i < tseq.len() implies coord_in_frame(
                            #[trigger] tseq[i],
                        ) by {
                            assert(tile_cells(tseq).contains(tseq[i]));
                            assert(open0.contains(tseq[i]));
                        }
                    }
                }
                active_board.remove_tile(key, &tile_set.tiles[t]);
                proof {
                    assert(active_board.open_set() =~= open0) by {
                        assert(active_board.open_set() == open0.difference(cells).union(cells));
                        assert(cells.subset_of(open0));
                    }
                    assert(active_board.placed() =~= placed0) by {
                        assert(active_board.placed() == placed0.update(key as int, true).update(
                            key as int,
                            false,
                        ));
                        assert(!placed0[key as int]);
                    }
                    // the recursion exhausted the rest of the board with
                    // this tile in place, so no exact cover places it
                    assert forall|cover: Map<int, Seq<Coordinate>>|
                        #[trigger] exact_cover(cover, sets0, placed0, open0) implies cover[key
                        as int] != tseq by {
                        if cover[key as int] == tseq {
                            assert(sets0.len() == placed0.len());
                            lemma_cover_after_place(cover, sets0, placed0, open0, key as int);
                            assert(tile_cells(cover[key as int]) == cells);
                            assert(open0.difference(cells) == open1);
                            assert(exact_cover(cover, sets0, placed1, open1));
                            assert(false);
                        }
                    }
                }
            } else {
                proof {
                    // the placement failed, so some cell of this tile is
                    // closed and no exact cover can use the tile here
                    assert forall|cover: Map<int, Seq<Coordinate>>|
                        #[trigger] exact_cover(cover, sets0, placed0, open0) implies cover[key
                        as int] != tseq by {
                        if cover[key as int] == tseq {
                            assert(tile_cells(tseq).subset_of(open0));
                            assert(false);
                        }
                    }
                }
            }
            proof {
                assert forall|cover: Map<int, Seq<Coordinate>>|
                    #[trigger] exact_cover(cover, sets0, placed0, open0) implies forall|j: int|
                    0 <= j < t + 1 ==> cover[key as int] != (#[trigger] tile_set.tiles@[j])@ by {
                    assert(cover[key as int] != tseq);
                    assert(tile_set.tiles@[t as int]@ == tseq);
                }
            }
            t += 1;
        }

        open_coor_opt = active_board.get_next_open_coor(Some(&coor));
        proof {
            if open_coor_opt is Some {
                assert(raster_idx(open_coor_opt.unwrap()) > raster_idx(coor));
            }
            // every orientation anchored on this cell has now failed, so no
            // exact cover anchors this set here; covers must anchor on a
            // later open cell
            assert forall|cover: Map<int, Seq<Coordinate>>|
                #[trigger] exact_cover(cover, sets0, placed0, open0) implies open0.contains(
                cover[key as int][0],
            ) && cover[key as int][0] != coor by {
                assert(is_placement_of(cover[key as int], sets0[key as int]));
                let (j, dx, dy) = choose|j: int, dx: int, dy: int|
                    0 <= j < sets0[key as int].len() && #[trigger] is_translation_of(
                        cover[key as int],
                        sets0[key as int][j],
                        dx,
                        dy,
                    );
                assert(crate::active_board::orientation_wf(
                    sets0[key as int][j],
                    sets0[key as int][0],
                ));
                lemma_translation_facts(cover[key as int], sets0[key as int][j], dx, dy);
                assert(cover[key as int].len() >= 1);
                assert(tile_cells(cover[key as int]).contains(cover[key as int][0]));
                assert(open0.contains(cover[key as int][0]));
                if cover[key as int][0] == coor {
                    assert(re_anchored(tile_set.tiles@[j]@, sets0[key as int][j]));
                    assert(tile_set.tiles@[j]@[0] == coor);
                    lemma_same_anchor_same_tile(
                        cover[key as int],
                        tile_set.tiles@[j]@,
                        sets0[key as int][j],
                    );
                    assert(cover[key as int] == tile_set.tiles@[j]@);
                    assert(false);
                }
            }
            match open_coor_opt {
                Some(c2) => {
                    assert forall|cover: Map<int, Seq<Coordinate>>|
                        #[trigger] exact_cover(cover, sets0, placed0, open0) implies raster_idx(
                        cover[key as int][0],
                    ) >= raster_idx(c2) by {
                        let a = cover[key as int][0];
                        assert(open0.contains(a) && a != coor);
                        assert(coord_in_frame(a));
                        assert(raster_idx(a) >= raster_idx(coor));
                        if raster_idx(a) == raster_idx(coor) {
                            assert(a.x == coor.x && a.y == coor.y);
                            assert(a == coor);
                            assert(false);
                        }
                        assert(raster_idx(a) > raster_idx(coor));
                    }
                },
                None => {
                    assert forall|cover: Map<int, Seq<Coordinate>>|
                        !(#[trigger] exact_cover(cover, sets0, placed0, open0)) by {
                        if exact_cover(cover, sets0, placed0, open0) {
                            let a = cover[key as int][0];
                            assert(open0.contains(a) && a != coor);
                            assert(raster_idx(a) >= raster_idx(coor));
                            assert(raster_idx(a) <= raster_idx(coor));
                            assert(coord_in_frame(a));
                            if raster_idx(a) == raster_idx(coor) {
                                assert(a.x == coor.x && a.y == coor.y);
                                assert(a == coor);
                            }
                            assert(false);
                        }
                    }
                },
            }
        }
    }
    false
}

/// One complete solve attempt for a point in time on a board: builds the
/// board state, runs the search, and returns the placed tiles or the error.
/// `InvalidPointInTime` comes exactly when the board has no blocked-cell
/// mapping for `now`. On success there is one tile per catalogue shape,
/// pairwise disjoint, duplicate-free, inside the initially open cells, with
/// the catalogue's total area; when that area equals the number of
/// initially open cells, the tiles cover the open cells exactly.
/// `NoSolutionFound` comes only when no exact cover of the open cells by
/// the catalogue exists at all: success is owed whenever a tiling exists.
pub fn run<B: CustomBoard>(now: &AllTime, board: &B) -> (r: Result<Vec<Tile>, SolveError>)
    ensures
        match r {
            Ok(solution) => {
                let open0 = tile_cells(board.spec_coors()).difference(
                    tile_cells(board.spec_blocked(*now).unwrap()),
                );
                &&& board.spec_blocked(*now) is Some
                &&& forall|k: int|
                    0 <= k < solution.deep_view().len() ==> tile_distinct(
                        #[trigger] solution.deep_view()[k],
                    ) && tile_cells(solution.deep_view()[k]).subset_of(open0)
                &&& tiles_disjoint(solution.deep_view())
                &&& cells_of_tiles(solution.deep_view()).subset_of(open0)
                &&& tiles_area(solution.deep_view()) == tiles_area(board.spec_tiles())
                &&& solution@.len() == board.spec_tiles().len()
                &&& (tiles_area(board.spec_tiles()) == open0.len() ==> cells_of_tiles(
                    solution.deep_view(),
                ) == open0)
            },
            Err(e) => {
                ||| (e == SolveError::InvalidPointInTime && board.spec_blocked(*now) is None)
                ||| (e == SolveError::NoSolutionFound && board.spec_blocked(*now) is Some
                    && (forall|cover: Map<int, Seq<Coordinate>>|
                    !(#[trigger] catalogue_cover(
                        cover,
                        board.spec_tiles(),
                        tile_cells(board.spec_coors()).difference(
                            tile_cells(board.spec_blocked(*now).unwrap()),
                        ),
                    ))))
            },
        },
{
    let mut active_board = match ActiveBoard::from_custom(board, now) {
        Ok(b) => b,
        Err(e) => {
            return Err(e);
        },
    };
    let ghost open0 = active_board.open_set();
    let ghost sets0 = active_board.sets();
    let ghost placed_init = active_board.placed();

    let mut solution: Vec<Tile> = Vec::new();
    let found = solve(&mut active_board, &mut solution);
    if !found {
        proof {
            // a cover by the catalogue reorders into a cover by the
            // shuffled sets, which the search has ruled out
            let ts = board.spec_tiles();
            let n = ts.len() as int;
            let p = choose|p: Seq<int>|
                #[trigger] crate::common::index_permutation(p, n) && forall|i: int|
                    0 <= i < p.len() ==> sets0[i] == spec_orientations(ts[p[i]]);
            assert(sets0.len() == n);
            assert forall|cover: Map<int, Seq<Coordinate>>|
                !(#[trigger] catalogue_cover(cover, ts, open0)) by {
                if catalogue_cover(cover, ts, open0) {
                    let cover0 = Map::<int, Seq<Coordinate>>::new(
                        |i: int| 0 <= i < n,
                        |i: int| cover[p[i]],
                    );
                    assert forall|i: int|
                        0 <= i < sets0.len() && !placed_init[i] implies is_placement_of(
                        #[trigger] cover0[i],
                        sets0[i],
                    ) && tile_cells(cover0[i]).subset_of(open0) by {
                        assert(cover0[i] == cover[p[i]]);
                        assert(0 <= p[i] < n);
                        assert(sets0[i] == spec_orientations(ts[p[i]]));
                        assert(is_placement_of(cover[p[i]], spec_orientations(ts[p[i]])));
                    }
                    assert forall|i1: int, i2: int|
                        0 <= i1 < i2 < sets0.len() && !placed_init[i1] && !placed_init[i2] implies
                        tile_cells(#[trigger] cover0[i1]).disjoint(
                        tile_cells(#[trigger] cover0[i2]),
                    ) by {
                        assert(cover0[i1] == cover[p[i1]] && cover0[i2] == cover[p[i2]]);
                        assert(p[i1] != p[i2]);
                        if p[i1] < p[i2] {
                            assert(tile_cells(cover[p[i1]]).disjoint(tile_cells(cover[p[i2]])));
                        } else {
                            assert(tile_cells(cover[p[i2]]).disjoint(tile_cells(cover[p[i1]])));
                            assert forall|d: Coordinate|
                                tile_cells(cover0[i1]).contains(d) implies !tile_cells(
                                cover0[i2],
                            ).contains(d) by {}
                        }
                    }
                    assert forall|d: Coordinate| #[trigger] open0.contains(d) implies exists|
                    i: int|
                        0 <= i < sets0.len() && !placed_init[i] && tile_cells(
                            #[trigger] cover0[i],
                        ).contains(d) by {
                        let istar = choose|istar: int|
                            0 <= istar < ts.len() && tile_cells(#[trigger] cover[istar]).contains(
                                d,
                            );
                        assert(crate::common::hits_index(p, istar));
                        let i0 = choose|i0: int| 0 <= i0 < p.len() && #[trigger] p[i0] == istar;
                        assert(cover0[i0] == cover[istar]);
                        assert(!placed_init[i0]);
                        assert(tile_cells(cover0[i0]).contains(d));
                    }
                    assert(exact_cover(cover0, sets0, placed_init, open0));
                    assert(false);
                }
            }
        }
        return Err(SolveError::NoSolutionFound);
    }

    proof {
        let sol = solution.deep_view();
        assert(sol.skip(0) =~= sol);
        lemma_count_unplaced_none_placed(placed_init);
        assert(solution@.len() == board.spec_tiles().len());
        // the whole accumulated list is this call's appended tiles
        assert(cells_of_tiles(sol) == open0.difference(active_board.open_set()));
        assert(cells_of_tiles(sol).subset_of(open0)) by {
            assert forall|d: Coordinate| cells_of_tiles(sol).contains(d) implies open0.contains(
                d,
            ) by {}
        }
        // total area: what was unplaced at the start is the whole catalogue
        assert(tiles_area(sol) == unplaced_area(sets0, placed_init));
        lemma_unplaced_area_none_placed(sets0, placed_init);
        lemma_sets_area_permutation(
            sets0,
            board.spec_tiles().map_values(|t: Seq<Coordinate>| spec_orientations(t)),
        );
        lemma_orientation_sets_area(board.spec_tiles());
        // exact cover when the areas match
        if tiles_area(board.spec_tiles()) == open0.len() {
            lemma_cover_area_is_cardinality(sol, open0);
            crate::active_board::lemma_frame_cells_finite(open0);
            let leftover = active_board.open_set();
            crate::active_board::lemma_frame_cells_finite(leftover);
            vstd::set_lib::lemma_set_disjoint_lens(cells_of_tiles(sol), leftover);
            assert(cells_of_tiles(sol).disjoint(leftover)) by {
                assert forall|d: Coordinate| cells_of_tiles(sol).contains(d) implies !leftover
                    .contains(d) by {}
            }
            assert(cells_of_tiles(sol) + leftover =~= open0);
            assert(cells_of_tiles(sol).len() + leftover.len() == open0.len());
            assert(leftover.len() == 0);
            assert(leftover =~= Set::empty());
            assert(cells_of_tiles(sol) =~= open0);
        }
    }
    Ok(solution)
}


/// The deep view of a list of tiles is determined by its view.
proof fn lemma_deep_view_determined(v1: Vec<Tile>, v2: Vec<Tile>)
    requires
        v1@ == v2@,
    ensures
        v1.deep_view() == v2.deep_view(),
{
    assert forall|k: int| 0 <= k < v1.deep_view().len() implies v1.deep_view()[k]
        == v2.deep_view()[k] by {
        assert(v1.deep_view()[k] == v1@[k]@);
        assert(v2.deep_view()[k] == v2@[k]@);
    }
    assert(v1.deep_view() =~= v2.deep_view());
}

/// The area of a list of tiles is the same however the list is permuted.
proof fn lemma_sets_area_permutation(s1: Seq<Seq<Seq<Coordinate>>>, s2: Seq<Seq<Seq<Coordinate>>>)
    requires
        s1.to_multiset() == s2.to_multiset(),
    ensures
        sets_area(s1) == sets_area(s2),
{
    let f = |s: Seq<Seq<Coordinate>>, acc: int| acc + s[0].len();
    assert(vstd::seq_lib::commutative_foldr(f));
    lemma_sets_area_is_fold(s1, 0);
    lemma_sets_area_is_fold(s2, 0);
    vstd::seq_lib::lemma_fold_right_permutation(s1, s2, f, 0);
}

/// `sets_area` agrees with a right fold of the size function.
proof fn lemma_sets_area_is_fold(ss: Seq<Seq<Seq<Coordinate>>>, b: int)
    ensures
        ss.fold_right(|s: Seq<Seq<Coordinate>>, acc: int| acc + s[0].len(), b) == b + sets_area(
            ss,
        ),
    decreases ss.len(),
{
    if ss.len() > 0 {
        let f = |s: Seq<Seq<Coordinate>>, acc: int| acc + s[0].len();
        lemma_sets_area_is_fold(ss.drop_last(), f(ss.last(), b));
    }
}

/// The orientation sets of a catalogue have the catalogue's own area: the
/// first orientation of each generated set is the base shape itself.
proof fn lemma_orientation_sets_area(ts: Seq<Seq<Coordinate>>)
    ensures
        sets_area(ts.map_values(|t: Seq<Coordinate>| spec_orientations(t))) == tiles_area(ts),
    decreases ts.len(),
{
    let mapped = ts.map_values(|t: Seq<Coordinate>| spec_orientations(t));
    if ts.len() > 0 {
        lemma_orientation_sets_area(ts.drop_last());
        assert(mapped.drop_last() =~= ts.drop_last().map_values(
            |t: Seq<Coordinate>| spec_orientations(t),
        ));
        assert(mapped.last() == spec_orientations(ts.last()));
        crate::tile_helper::lemma_coords_of_math_id(ts.last());
        assert(mapped.last()[0] == ts.last());
    }
}

/// For pairwise disjoint tiles without duplicate cells, the union of the
/// cells is as large as the total area.
proof fn lemma_cover_area_is_cardinality(ts: Seq<Seq<Coordinate>>, open0: Set<Coordinate>)
    requires
        forall|k: int|
            0 <= k < ts.len() ==> tile_distinct(#[trigger] ts[k]) && tile_cells(
                ts[k],
            ).subset_of(open0),
        tiles_disjoint(ts),
        forall|d: Coordinate| #[trigger] open0.contains(d) ==> coord_in_frame(d),
    ensures
        cells_of_tiles(ts).finite(),
        cells_of_tiles(ts).len() == tiles_area(ts),
    decreases ts.len(),
{
    if ts.len() == 0 {
        assert(cells_of_tiles(ts).len() == 0);
    } else {
        let rest = ts.drop_last();
        let last = ts.last();
        lemma_cover_area_is_cardinality(rest, open0);
        assert(last.no_duplicates()) by {
            assert(tile_distinct(last));
            assert forall|i: int, j: int|
                0 <= i < last.len() && 0 <= j < last.len() && i != j implies last[i] != last[j]
                by {
                if i < j {
                    assert(last[i] != last[j]);
                } else {
                    assert(last[j] != last[i]);
                }
            }
        }
        last.unique_seq_to_set();
        assert(tile_cells(last).len() == last.len());
        assert(cells_of_tiles(rest).disjoint(tile_cells(last))) by {
            assert forall|d: Coordinate| cells_of_tiles(rest).contains(d) implies !tile_cells(
                last,
            ).contains(d) by {
                lemma_cells_of_tiles_member(rest, d);
                let k = choose|k: int|
                    0 <= k < rest.len() && tile_cells(#[trigger] rest[k]).contains(d);
                assert(rest[k] == ts[k]);
                assert(tile_cells(ts[k]).disjoint(tile_cells(ts[ts.len() - 1])));
            }
        }
        vstd::set_lib::lemma_set_disjoint_lens(cells_of_tiles(rest), tile_cells(last));
        assert(cells_of_tiles(rest) + tile_cells(last) == cells_of_tiles(ts));
    }
}

/// A cell covered by a list of tiles is covered by one of its tiles.
pub proof fn lemma_cells_of_tiles_member(ts: Seq<Seq<Coordinate>>, d: Coordinate)
    requires
        cells_of_tiles(ts).contains(d),
    ensures
        exists|k: int| 0 <= k < ts.len() && tile_cells(#[trigger] ts[k]).contains(d),
    decreases ts.len(),
{
    if ts.len() > 0 {
        if tile_cells(ts.last()).contains(d) {
            assert(tile_cells(ts[ts.len() - 1]).contains(d));
        } else {
            lemma_cells_of_tiles_member(ts.drop_last(), d);
            let k = choose|k: int|
                0 <= k < ts.drop_last().len() && tile_cells(#[trigger] ts.drop_last()[k]).contains(
                    d,
                );
            assert(ts.drop_last()[k] == ts[k]);
            assert(tile_cells(ts[k]).contains(d));
        }
    }
}

/// Each tile's cells lie inside the union of the list's cells.
pub proof fn lemma_tile_in_cells_of_tiles(ts: Seq<Seq<Coordinate>>, j: int)
    requires
        0 <= j < ts.len(),
    ensures
        tile_cells(ts[j]).subset_of(cells_of_tiles(ts)),
    decreases ts.len(),
{
    if j == ts.len() - 1 {
        assert(ts[j] == ts.last());
    } else {
        lemma_tile_in_cells_of_tiles(ts.drop_last(), j);
        assert(ts.drop_last()[j] == ts[j]);
    }
}


} // verus!
