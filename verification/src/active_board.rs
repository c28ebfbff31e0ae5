//! The mutable board state a solve works on: the open-cell grid, the
//! orientation sets of every tile, and the per-tile placed flags. The grid
//! is modelled as the set of currently open cells; placement and removal
//! contracts say exactly how that set changes.

use vstd::prelude::*;

use crate::common::{
    adjacent, catalog_wf, chain_connected, coord_in_frame, copy_tiles, has_earlier_neighbor,
    index_permutation, tile_cells, tile_distinct, tile_in_frame, tile_rel_bounded, AllTime,
    Coordinate, CustomBoard, SolveError, Tile, GRID_SIZE,
};
use crate::tile_helper::{generate_orientations, spec_orientations, TileHelper};

verus! {

broadcast use {
    crate::common::lemma_row_deep_view,
    crate::common::lemma_grid_deep_view_len,
    crate::common::lemma_grid_deep_view_index,
    crate::common::lemma_tile_deep_view,
    crate::common::lemma_tiles_deep_view_len,
    crate::common::lemma_tiles_deep_view_index,
    crate::common::lemma_tile_sets_deep_view_len,
    crate::common::lemma_tile_sets_deep_view_index,
};

/// Position of a cell in the scan order the solver enumerates open cells
/// in: column-major, `x` first and then `y`.
pub open spec fn raster_idx(c: Coordinate) -> int {
    c.x * (GRID_SIZE as int) + c.y
}

/// A walk through the cells of `s`: nonempty, inside `s`, each step to an
/// edge-adjacent cell.
pub open spec fn is_path(s: Set<Coordinate>, p: Seq<Coordinate>) -> bool {
    &&& p.len() >= 1
    &&& forall|i: int| 0 <= i < p.len() ==> s.contains(#[trigger] p[i])
    &&& forall|i: int| 0 <= i < p.len() - 1 ==> adjacent(#[trigger] p[i], p[i + 1])
}

/// A set of cells is 4-connected when every two of its cells are joined by
/// a path inside it.
pub open spec fn connected(s: Set<Coordinate>) -> bool {
    forall|a: Coordinate, b: Coordinate|
        #[trigger] s.contains(a) && #[trigger] s.contains(b) ==> exists|p: Seq<Coordinate>|
            is_path(s, p) && p[0] == a && p.last() == b
}

/// A path through open cells that starts inside an adjacency-closed set
/// cannot leave it.
proof fn lemma_path_stays_inside(
    open: Set<Coordinate>,
    island: Set<Coordinate>,
    s: Set<Coordinate>,
    p: Seq<Coordinate>,
)
    requires
        is_path(s, p),
        s.subset_of(open),
        adj_closed(island, open),
        island.contains(p[0]),
    ensures
        island.contains(p.last()),
    decreases p.len(),
{
    if p.len() == 1 {
    } else {
        assert(adjacent(p[0], p[1]));
        assert(s.contains(p[1]));
        assert(open.contains(p[1]));
        assert(island.contains(p[1]));
        let q = p.drop_first();
        assert(is_path(s, q)) by {
            assert forall|i: int| 0 <= i < q.len() implies s.contains(#[trigger] q[i]) by {
                assert(q[i] == p[i + 1]);
            }
            assert forall|i: int| 0 <= i < q.len() - 1 implies adjacent(
                #[trigger] q[i],
                q[i + 1],
            ) by {
                assert(q[i] == p[i + 1] && q[i + 1] == p[i + 2]);
                assert(adjacent(p[i + 1], p[i + 2]));
            }
        }
        assert(q[0] == p[1]);
        lemma_path_stays_inside(open, island, s, q);
        assert(q.last() == p.last());
    }
}

/// A connected set of open cells that touches an adjacency-closed island
/// lies entirely inside the island.
pub proof fn lemma_connected_within_island(
    open: Set<Coordinate>,
    island: Set<Coordinate>,
    cells: Set<Coordinate>,
)
    requires
        connected(cells),
        cells.subset_of(open),
        adj_closed(island, open),
        exists|d: Coordinate| cells.contains(d) && island.contains(d),
    ensures
        cells.subset_of(island),
{
    let d0 = choose|d: Coordinate| cells.contains(d) && island.contains(d);
    assert forall|b: Coordinate| cells.contains(b) implies island.contains(b) by {
        assert(cells.contains(d0) && cells.contains(b));
        let p = choose|p: Seq<Coordinate>| is_path(cells, p) && p[0] == d0 && p.last() == b;
        lemma_path_stays_inside(open, island, cells, p);
    }
}

/// A connected tile placed on open cells that touches an island cannot be
/// larger than the island: the island bounds every tile that enters it.
pub proof fn lemma_island_bounds_tile(
    open: Set<Coordinate>,
    island: Set<Coordinate>,
    tile: Seq<Coordinate>,
)
    requires
        connected(tile_cells(tile)),
        tile_cells(tile).subset_of(open),
        adj_closed(island, open),
        island.finite(),
        tile_distinct(tile),
        exists|d: Coordinate| tile_cells(tile).contains(d) && island.contains(d),
    ensures
        tile_cells(tile).subset_of(island),
        tile.len() <= island.len(),
{
    lemma_connected_within_island(open, island, tile_cells(tile));
    assert(tile.no_duplicates()) by {
        assert forall|i: int, j: int|
            0 <= i < tile.len() && 0 <= j < tile.len() && i != j implies tile[i] != tile[j] by {
            if i < j {
                assert(tile[i] != tile[j]);
            } else {
                assert(tile[j] != tile[i]);
            }
        }
    }
    tile.unique_seq_to_set();
    vstd::set_lib::lemma_len_subset(tile_cells(tile), island);
}

/// Concatenating two walks joined by one adjacent step gives a walk.
proof fn lemma_path_concat(s: Set<Coordinate>, p1: Seq<Coordinate>, p2: Seq<Coordinate>)
    requires
        is_path(s, p1),
        is_path(s, p2),
        adjacent(p1.last(), p2[0]),
    ensures
        is_path(s, p1 + p2),
        (p1 + p2)[0] == p1[0],
        (p1 + p2).last() == p2.last(),
{
    let p = p1 + p2;
    assert forall|i: int| 0 <= i < p.len() implies s.contains(#[trigger] p[i]) by {
        if i < p1.len() {
            assert(p[i] == p1[i]);
        } else {
            assert(p[i] == p2[i - p1.len()]);
        }
    }
    assert forall|i: int| 0 <= i < p.len() - 1 implies adjacent(#[trigger] p[i], p[i + 1]) by {
        if i + 1 < p1.len() {
            assert(p[i] == p1[i] && p[i + 1] == p1[i + 1]);
            assert(adjacent(p1[i], p1[i + 1]));
        } else if i + 1 == p1.len() {
            assert(p[i] == p1.last() && p[i + 1] == p2[0]);
        } else {
            assert(p[i] == p2[i - p1.len()] && p[i + 1] == p2[i + 1 - p1.len()]);
            assert(adjacent(p2[i - p1.len()], p2[i - p1.len() + 1]));
        }
    }
}

/// A walk inside a set is a walk inside any superset.
proof fn lemma_path_monotone(s1: Set<Coordinate>, s2: Set<Coordinate>, p: Seq<Coordinate>)
    requires
        is_path(s1, p),
        s1.subset_of(s2),
    ensures
        is_path(s2, p),
{
}

/// A tile whose cells each touch an earlier cell is 4-connected. The
/// catalogue shapes are listed in such an order, so this discharges the
/// connectivity hypothesis of the pruning lemmas for them.
pub proof fn lemma_chain_connected(t: Seq<Coordinate>)
    requires
        chain_connected(t),
    ensures
        connected(tile_cells(t)),
    decreases t.len(),
{
    let cells = tile_cells(t);
    if t.len() == 1 {
        assert forall|a: Coordinate, b: Coordinate|
            #[trigger] cells.contains(a) && #[trigger] cells.contains(b) implies exists|
        p: Seq<Coordinate>|
            is_path(cells, p) && p[0] == a && p.last() == b by {
            assert(a == t[0] && b == t[0]);
            let p = seq![a];
            assert(is_path(cells, p) && p[0] == a && p.last() == b);
        }
    } else {
        let rest = t.drop_last();
        let last = t.last();
        let rest_cells = tile_cells(rest);
        assert(rest.len() >= 1);
        assert(chain_connected(rest)) by {
            assert forall|k: int| 1 <= k < rest.len() implies has_earlier_neighbor(rest, k) by {
                assert(has_earlier_neighbor(t, k));
                let j = choose|j: int| 0 <= j < k && adjacent(#[trigger] t[j], t[k]);
                assert(rest[j] == t[j] && rest[k] == t[k]);
                assert(0 <= j < k && adjacent(rest[j], rest[k]));
            }
        }
        lemma_chain_connected(rest);
        assert(rest_cells.subset_of(cells)) by {
            assert forall|d: Coordinate| rest_cells.contains(d) implies cells.contains(d) by {
                let j = choose|j: int| 0 <= j < rest.len() && rest[j] == d;
                assert(t[j] == d);
            }
        }
        assert(cells.contains(last));
        // the new cell touches some earlier cell
        assert(has_earlier_neighbor(t, t.len() - 1));
        let j0 = choose|j: int| 0 <= j < t.len() - 1 && adjacent(#[trigger] t[j], t[t.len() - 1]);
        let bridge = t[j0];
        assert(rest[j0] == bridge);
        assert(rest_cells.contains(bridge));
        assert forall|a: Coordinate, b: Coordinate|
            #[trigger] cells.contains(a) && #[trigger] cells.contains(b) implies exists|
        p: Seq<Coordinate>|
            is_path(cells, p) && p[0] == a && p.last() == b by {
            let a_old = rest_cells.contains(a);
            let b_old = rest_cells.contains(b);
            if !a_old {
                assert(a == last) by {
                    let j = choose|j: int| 0 <= j < t.len() && t[j] == a;
                    if j < t.len() - 1 {
                        assert(rest[j] == a);
                        assert(false);
                    }
                }
            }
            if !b_old {
                assert(b == last) by {
                    let j = choose|j: int| 0 <= j < t.len() && t[j] == b;
                    if j < t.len() - 1 {
                        assert(rest[j] == b);
                        assert(false);
                    }
                }
            }
            if a_old && b_old {
                let p = choose|p: Seq<Coordinate>|
                    is_path(rest_cells, p) && p[0] == a && p.last() == b;
                lemma_path_monotone(rest_cells, cells, p);
                assert(is_path(cells, p) && p[0] == a && p.last() == b);
            } else if a_old && !b_old {
                let p = choose|p: Seq<Coordinate>|
                    is_path(rest_cells, p) && p[0] == a && p.last() == bridge;
                assert(rest_cells.contains(a) && rest_cells.contains(bridge));
                lemma_path_monotone(rest_cells, cells, p);
                let tail = seq![last];
                assert(is_path(cells, tail));
                assert(adjacent(p.last(), tail[0]));
                lemma_path_concat(cells, p, tail);
                assert(is_path(cells, p + tail) && (p + tail)[0] == a && (p + tail).last() == b);
            } else if !a_old && b_old {
                let p = choose|p: Seq<Coordinate>|
                    is_path(rest_cells, p) && p[0] == bridge && p.last() == b;
                assert(rest_cells.contains(bridge) && rest_cells.contains(b));
                lemma_path_monotone(rest_cells, cells, p);
                let head = seq![last];
                assert(is_path(cells, head));
                assert(adjacent(bridge, last));
                assert(adjacent(head.last(), p[0]));
                lemma_path_concat(cells, head, p);
                assert(is_path(cells, head + p) && (head + p)[0] == a && (head + p).last() == b);
            } else {
                let p = seq![last];
                assert(is_path(cells, p) && p[0] == a && p.last() == b);
            }
        }
    }
}

/// The cells a boolean grid marks true, restricted to the frame.
pub open spec fn grid_set(g: Seq<Seq<bool>>) -> Set<Coordinate> {
    Set::new(|c: Coordinate| coord_in_frame(c) && g[c.x as int][c.y as int])
}

/// Whether a boolean grid has the fixed `GRID_SIZE` by `GRID_SIZE` shape.
pub open spec fn grid_dims(g: Seq<Seq<bool>>) -> bool {
    &&& g.len() == GRID_SIZE
    &&& forall|x: int| 0 <= x < GRID_SIZE ==> (#[trigger] g[x]).len() == GRID_SIZE
}

/// Whether `s` is closed under stepping to adjacent cells of `open`: no cell
/// of `open` outside `s` touches `s`.
pub open spec fn adj_closed(s: Set<Coordinate>, open: Set<Coordinate>) -> bool {
    forall|a: Coordinate, b: Coordinate|
        s.contains(a) && open.contains(b) && #[trigger] adjacent(a, b) ==> s.contains(b)
}

/// What `find_islands` returns: a partition of the open cells into
/// nonempty, duplicate-free, pairwise disjoint groups, each 4-connected
/// and touched by no open cell outside it. Such a group is exactly one
/// maximal 4-connected component of the open set.
pub open spec fn islands_wf(islands: Seq<Seq<Coordinate>>, open: Set<Coordinate>) -> bool {
    &&& forall|k: int|
        0 <= k < islands.len() ==> {
            &&& (#[trigger] islands[k]).len() >= 1
            &&& tile_distinct(islands[k])
            &&& tile_cells(islands[k]).subset_of(open)
            &&& connected(tile_cells(islands[k]))
            &&& adj_closed(tile_cells(islands[k]), open)
        }
    &&& forall|k1: int, k2: int|
        0 <= k1 < k2 < islands.len() ==> tile_cells(#[trigger] islands[k1]).disjoint(
            tile_cells(#[trigger] islands[k2]),
        )
    &&& forall|d: Coordinate|
        #[trigger] open.contains(d) ==> exists|k: int|
            0 <= k < islands.len() && tile_cells(#[trigger] islands[k]).contains(d)
}

/// Every cell of the frame, enumerated in scan order.
pub open spec fn frame_seq() -> Seq<Coordinate> {
    Seq::new(
        (GRID_SIZE * GRID_SIZE) as nat,
        |i: int|
            Coordinate { x: (i / (GRID_SIZE as int)) as i32, y: (i % (GRID_SIZE as int)) as i32 },
    )
}

/// A set of cells that all lie in the frame is finite and no larger than
/// the frame.
pub proof fn lemma_frame_cells_finite(s: Set<Coordinate>)
    requires
        forall|d: Coordinate| #[trigger] s.contains(d) ==> coord_in_frame(d),
    ensures
        s.finite(),
        s.len() <= GRID_SIZE * GRID_SIZE,
{
    broadcast use vstd::seq_lib::seq_to_set_is_finite;

    let frame = frame_seq().to_set();
    assert forall|d: Coordinate| #[trigger] s.contains(d) implies frame.contains(d) by {
        let i = d.x * (GRID_SIZE as int) + d.y;
        vstd::arithmetic::div_mod::lemma_fundamental_div_mod_converse(
            i,
            GRID_SIZE as int,
            d.x as int,
            d.y as int,
        );
        assert(frame_seq()[i] == d);
        assert(frame_seq().contains(d));
    }
    assert(s.subset_of(frame));
    vstd::set_lib::lemma_len_subset(s, frame);
    frame_seq().lemma_cardinality_of_set();
}

/// What each orientation of a tile set satisfies, relative to the set's
/// first orientation: nonempty, same cell count, same anchor, no duplicate
/// cells, anchor-relative offsets bounded by the frame, and 4-connected in
/// listing order.
pub open spec fn orientation_wf(t: Seq<Coordinate>, first: Seq<Coordinate>) -> bool {
    &&& t.len() >= 1
    &&& t.len() == first.len()
    &&& t[0] == first[0]
    &&& tile_distinct(t)
    &&& tile_rel_bounded(t)
    &&& chain_connected(t)
}

/// What a stored tile set satisfies: exactly the eight generated
/// orientations, mutually consistent and anchored inside the frame.
pub open spec fn tile_set_wf(s: Seq<Seq<Coordinate>>) -> bool {
    &&& s.len() == 8
    &&& coord_in_frame(s[0][0])
    &&& forall|j: int| 0 <= j < s.len() ==> orientation_wf(#[trigger] s[j], s[0])
}


/// A duplicate-free tile anchored in the frame with frame-bounded offsets
/// has fewer cells than nine grids' worth, so a tile size can never reach
/// the `usize::MAX` sentinel.
pub proof fn lemma_bounded_tile_len(t: Seq<Coordinate>)
    requires
        t.len() >= 1,
        tile_distinct(t),
        tile_rel_bounded(t),
        coord_in_frame(t[0]),
    ensures
        t.len() <= 9 * GRID_SIZE * GRID_SIZE,
{
    broadcast use vstd::seq_lib::seq_to_set_is_finite;

    let side = 3 * (GRID_SIZE as int);
    let cells = Seq::new(
        (9 * GRID_SIZE * GRID_SIZE) as nat,
        |i: int|
            Coordinate {
                x: (i / side - GRID_SIZE) as i32,
                y: (i % side - GRID_SIZE) as i32,
            },
    );
    let box_set = cells.to_set();
    assert forall|d: Coordinate| #[trigger] t.to_set().contains(d) implies box_set.contains(d) by {
        let k = choose|k: int| 0 <= k < t.len() && t[k] == d;
        assert(-(GRID_SIZE - 1) <= t[k].x - t[0].x <= GRID_SIZE - 1);
        assert(-(GRID_SIZE as int) < d.x < 2 * (GRID_SIZE as int));
        assert(-(GRID_SIZE as int) < d.y < 2 * (GRID_SIZE as int));
        let i = (d.x + GRID_SIZE) * side + (d.y + GRID_SIZE);
        vstd::arithmetic::div_mod::lemma_fundamental_div_mod_converse(
            i,
            side,
            d.x + GRID_SIZE,
            d.y + GRID_SIZE,
        );
        assert(i / side == d.x + GRID_SIZE);
        assert(i % side == d.y + GRID_SIZE);
        assert(1 <= d.x + GRID_SIZE <= 3 * GRID_SIZE - 1);
        assert(1 <= d.y + GRID_SIZE <= 3 * GRID_SIZE - 1);
        assert(0 <= i < 9 * (GRID_SIZE as int) * (GRID_SIZE as int)) by (nonlinear_arith)
            requires
                i == (d.x + GRID_SIZE) * side + (d.y + GRID_SIZE),
                side == 3 * (GRID_SIZE as int),
                1 <= d.x + GRID_SIZE <= 3 * (GRID_SIZE as int) - 1,
                1 <= d.y + GRID_SIZE <= 3 * (GRID_SIZE as int) - 1,
                GRID_SIZE == 16,
        {}
        assert(cells[i].x == ((i / side - GRID_SIZE) as i32));
        assert(cells[i].x == d.x);
        assert(cells[i].y == d.y);
        assert(cells[i] == d);
        assert(cells.contains(d));
    }
    assert(t.to_set().subset_of(box_set));
    vstd::set_lib::lemma_len_subset(t.to_set(), box_set);
    cells.lemma_cardinality_of_set();
    assert(t.no_duplicates()) by {
        assert forall|i: int, j: int|
            0 <= i < t.len() && 0 <= j < t.len() && i != j implies t[i] != t[j] by {
            if i < j {
                assert(t[i] != t[j]);
            } else {
                assert(t[j] != t[i]);
            }
        }
    }
    t.unique_seq_to_set();
}

/// A duplicate-free tile occupies exactly as many cells as it lists.
pub proof fn lemma_distinct_cells_count(t: Seq<Coordinate>)
    requires
        tile_distinct(t),
    ensures
        tile_cells(t).len() == t.len(),
{
    assert(t.no_duplicates()) by {
        assert forall|i: int, j: int|
            0 <= i < t.len() && 0 <= j < t.len() && i != j implies t[i] != t[j] by {
            if i < j {
                assert(t[i] != t[j]);
            } else {
                assert(t[j] != t[i]);
            }
        }
    }
    t.unique_seq_to_set();
}

/// The board state during one solve: per-tile orientation sets, per-tile
/// placed flags, and the open/closed grid.
pub struct ActiveBoard {
    /// All eight orientations of each tile, by tile-set key.
    tile_sets: Vec<Vec<Tile>>,
    /// Whether an orientation of the keyed tile set is currently placed.
    tile_set_placed: Vec<bool>,
    /// `GRID_SIZE` columns of `GRID_SIZE` cells; `true` means open.
    open_coors: Vec<Vec<bool>>,
}

/// One tile set handed out to the search: its key into the board and a
/// working copy of its eight orientations.
pub struct ActiveTileSet {
    /// Index of the tile set inside its board.
    pub key: usize,
    /// All orientations of the tile; the search translates these in place.
    pub tiles: Vec<Tile>,
}

impl ActiveTileSet {
    /// The key of the tile set inside its board.
    pub open spec fn spec_key(self) -> int {
        self.key as int
    }

    pub fn key(&self) -> (r: usize)
        ensures
            r == self.spec_key(),
    {
        self.key
    }
}

impl ActiveBoard {
    /// The open/closed grid, column-major as stored.
    pub closed spec fn grid(self) -> Seq<Seq<bool>> {
        self.open_coors.deep_view()
    }

    /// The stored orientation sets.
    pub closed spec fn sets(self) -> Seq<Seq<Seq<Coordinate>>> {
        self.tile_sets.deep_view()
    }

    /// The placed flag of every tile set.
    pub closed spec fn placed(self) -> Seq<bool> {
        self.tile_set_placed@
    }

    /// The set of currently open cells: the single source of truth the
    /// placement contracts are stated over.
    pub open spec fn open_set(self) -> Set<Coordinate> {
        grid_set(self.grid())
    }

    /// How many tile sets the board holds.
    pub open spec fn num_sets(self) -> int {
        self.sets().len() as int
    }

    /// The cell count of tile set `i` (all orientations share it).
    pub open spec fn set_size(self, i: int) -> int {
        self.sets()[i][0].len() as int
    }

    /// Structural invariant: a full-size grid, one placed flag per tile
    /// set, and well-formed orientation sets.
    pub open spec fn wf(self) -> bool {
        &&& grid_dims(self.grid())
        &&& self.placed().len() == self.sets().len()
        &&& forall|i: int| 0 <= i < self.sets().len() ==> tile_set_wf(#[trigger] self.sets()[i])
    }

    /// Builds the board state for one solve attempt: the open grid is the
    /// board's shape minus the cells blocked for `pit`, every tile set holds
    /// the eight orientations of one catalogue shape, the order of the tile
    /// sets is randomized so repeated solves can surface different
    /// solutions, and nothing is placed yet. Fails exactly when the board
    /// has no blocked-cell mapping for `pit`.
    pub fn from_custom<B: CustomBoard>(board: &B, pit: &AllTime) -> (r: Result<
        ActiveBoard,
        SolveError,
    >)
        ensures
            match r {
                Ok(b) => {
                    &&& board.spec_blocked(*pit) is Some
                    &&& b.wf()
                    &&& b.open_set() == tile_cells(board.spec_coors()).difference(
                        tile_cells(board.spec_blocked(*pit).unwrap()),
                    )
                    &&& b.num_sets() == board.spec_tiles().len()
                    &&& forall|i: int| 0 <= i < b.num_sets() ==> !b.placed()[i]
                    &&& b.sets().to_multiset() == board.spec_tiles().map_values(
                        |t: Seq<Coordinate>| spec_orientations(t),
                    ).to_multiset()
                    &&& exists|p: Seq<int>|
                        #[trigger] index_permutation(p, board.spec_tiles().len() as int)
                            && forall|i: int|
                            0 <= i < p.len() ==> b.sets()[i] == spec_orientations(
                                board.spec_tiles()[p[i]],
                            )
                },
                Err(e) => e == SolveError::InvalidPointInTime && board.spec_blocked(*pit) is None,
            },
    {
        let avoid_points: Vec<Coordinate> = match board.point_in_time(pit) {
            Some(coors) => coors,
            None => {
                return Err(SolveError::InvalidPointInTime);
            },
        };

        let mut open_coors = blank_grid();
        proof {
            assert(grid_set(open_coors.deep_view()) =~= Set::empty());
        }
        let coors = board.coors();
        let cn = coors.len();
        let mut i: usize = 0;
        while i < cn
            invariant
                cn == coors@.len(),
                i <= cn,
                tile_in_frame(coors@),
                grid_dims(open_coors.deep_view()),
                forall|d: Coordinate|
                    #[trigger] grid_set(open_coors.deep_view()).contains(d) == (exists|k: int|
                        0 <= k < i && coors@[k] == d),
            decreases cn - i,
        {
            let coor = coors[i];
            let ghost pre = open_coors;
            proof {
                assert(coord_in_frame(coors@[i as int]));
                assert(open_coors@.len() == open_coors.deep_view().len());
                assert(open_coors@[coor.x as int]@.len() == open_coors.deep_view()[coor.x
                    as int].len());
            }
            open_coors[coor.x as usize][coor.y as usize] = true;
            proof {
                assert(open_coors@.len() == pre@.len());
                assert forall|a: int| 0 <= a < GRID_SIZE implies (
                #[trigger] open_coors.deep_view()[a]).len() == GRID_SIZE by {
                    assert(pre.deep_view()[a] == pre@[a]@);
                    assert(open_coors.deep_view()[a] == open_coors@[a]@);
                    if a == coor.x as int {
                        assert(open_coors@[a]@ == pre@[a]@.update(coor.y as int, true));
                    } else {
                        assert(open_coors@[a] == pre@[a]);
                    }
                }
                assert forall|d: Coordinate|
                    #[trigger] grid_set(open_coors.deep_view()).contains(d) == (exists|k: int|
                        0 <= k < i + 1 && coors@[k] == d) by {
                    if coord_in_frame(d) {
                        assert(pre.deep_view()[d.x as int] == pre@[d.x as int]@);
                        assert(open_coors.deep_view()[d.x as int] == open_coors@[d.x as int]@);
                        if d == coors@[i as int] {
                            assert(open_coors@[d.x as int]@[d.y as int] == true);
                            assert(grid_set(open_coors.deep_view()).contains(d));
                            assert(coors@[i as int] == d && 0 <= i < i + 1);
                            assert(exists|k: int| 0 <= k < i + 1 && coors@[k] == d);
                        } else {
                            if d.x == coor.x && d.y == coor.y {
                                assert(d == coors@[i as int]);
                            }
                            assert(open_coors@[d.x as int]@[d.y as int] == pre@[d.x as int]@[d.y
                                as int]);
                            assert(grid_set(open_coors.deep_view()).contains(d) == grid_set(
                                pre.deep_view(),
                            ).contains(d));
                            assert(grid_set(pre.deep_view()).contains(d) == (exists|k: int|
                                0 <= k < i && coors@[k] == d));
                            assert((exists|k: int| 0 <= k < i + 1 && coors@[k] == d) == (exists|
                            k: int|
                                0 <= k < i && coors@[k] == d));
                        }
                    } else {
                        if exists|k: int| 0 <= k < i + 1 && coors@[k] == d {
                            let k = choose|k: int| 0 <= k < i + 1 && coors@[k] == d;
                            assert(coord_in_frame(coors@[k]));
                            assert(false);
                        }
                    }
                }
            }
            i += 1;
        }
        let an = avoid_points.len();
        let mut i: usize = 0;
        while i < an
            invariant
                an == avoid_points@.len(),
                i <= an,
                tile_in_frame(avoid_points@),
                tile_in_frame(coors@),
                grid_dims(open_coors.deep_view()),
                forall|d: Coordinate|
                    #[trigger] grid_set(open_coors.deep_view()).contains(d) == (tile_cells(
                        coors@,
                    ).contains(d) && !(exists|k: int| 0 <= k < i && avoid_points@[k] == d)),
            decreases an - i,
        {
            let coor = avoid_points[i];
            let ghost pre = open_coors;
            proof {
                assert(coord_in_frame(avoid_points@[i as int]));
                assert(open_coors@.len() == open_coors.deep_view().len());
                assert(open_coors@[coor.x as int]@.len() == open_coors.deep_view()[coor.x
                    as int].len());
            }
            open_coors[coor.x as usize][coor.y as usize] = false;
            proof {
                assert(open_coors@.len() == pre@.len());
                assert forall|a: int| 0 <= a < GRID_SIZE implies (
                #[trigger] open_coors.deep_view()[a]).len() == GRID_SIZE by {
                    assert(pre.deep_view()[a] == pre@[a]@);
                    assert(open_coors.deep_view()[a] == open_coors@[a]@);
                    if a == coor.x as int {
                        assert(open_coors@[a]@ == pre@[a]@.update(coor.y as int, false));
                    } else {
                        assert(open_coors@[a] == pre@[a]);
                    }
                }
                assert forall|d: Coordinate|
                    #[trigger] grid_set(open_coors.deep_view()).contains(d) == (tile_cells(
                        coors@,
                    ).contains(d) && !(exists|k: int|
                        0 <= k < i + 1 && avoid_points@[k] == d)) by {
                    if coord_in_frame(d) {
                        assert(pre.deep_view()[d.x as int] == pre@[d.x as int]@);
                        assert(open_coors.deep_view()[d.x as int] == open_coors@[d.x as int]@);
                        if d == avoid_points@[i as int] {
                            assert(open_coors@[d.x as int]@[d.y as int] == false);
                            assert(!grid_set(open_coors.deep_view()).contains(d));
                            assert(avoid_points@[i as int] == d && 0 <= i < i + 1);
                            assert(exists|k: int| 0 <= k < i + 1 && avoid_points@[k] == d);
                        } else {
                            if d.x == coor.x && d.y == coor.y {
                                assert(d == avoid_points@[i as int]);
                            }
                            assert(open_coors@[d.x as int]@[d.y as int] == pre@[d.x as int]@[d.y
                                as int]);
                            assert(grid_set(open_coors.deep_view()).contains(d) == grid_set(
                                pre.deep_view(),
                            ).contains(d));
                            assert(grid_set(pre.deep_view()).contains(d) == (tile_cells(
                                coors@,
                            ).contains(d) && !(exists|k: int|
                                0 <= k < i && avoid_points@[k] == d)));
                            assert((exists|k: int|
                                0 <= k < i + 1 && avoid_points@[k] == d) == (exists|k: int|
                                0 <= k < i && avoid_points@[k] == d));
                        }
                    } else {
                        if tile_cells(coors@).contains(d) {
                            let k = choose|k: int| 0 <= k < coors@.len() && coors@[k] == d;
                            assert(coord_in_frame(coors@[k]));
                            assert(false);
                        }
                    }
                }
            }
            i += 1;
        }
        proof {
            assert forall|k: int| 0 <= k < coors@.len() implies #[trigger] tile_cells(
                coors@,
            ).contains(coors@[k]) by {}
            assert forall|d: Coordinate|
                #[trigger] grid_set(open_coors.deep_view()).contains(d) == tile_cells(
                    coors@,
                ).difference(tile_cells(avoid_points@)).contains(d) by {
                assert(tile_cells(avoid_points@).contains(d) == (exists|k: int|
                    0 <= k < an && avoid_points@[k] == d));
            }
            assert(grid_set(open_coors.deep_view()) =~= tile_cells(coors@).difference(
                tile_cells(avoid_points@),
            ));
        }

        let board_tiles = board.tiles();
        let tn = board_tiles.len();
        let ghost base: Seq<Seq<Coordinate>> = board.spec_tiles();
        let mut tiles: Vec<Vec<Tile>> = Vec::new();
        let mut i: usize = 0;
        while i < tn
            invariant
                tn == board_tiles@.len(),
                board_tiles.deep_view() == base,
                catalog_wf(base),
                i <= tn,
                tiles@.len() == i,
                forall|k: int|
                    0 <= k < i ==> (#[trigger] tiles@[k]).deep_view() == spec_orientations(
                        base[k],
                    ),
                forall|k: int| 0 <= k < i ==> tile_set_wf((#[trigger] tiles@[k]).deep_view()),
            decreases tn - i,
        {
            proof {
                assert(board_tiles@[i as int]@ == base[i as int]);
                assert(base[i as int].len() >= 1 && tile_distinct(base[i as int]) && tile_in_frame(
                    base[i as int],
                ));
            }
            let orientations = generate_orientations(&board_tiles[i]);
            proof {
                let s = orientations.deep_view();
                assert(s == spec_orientations(base[i as int]));
                assert forall|j: int| 0 <= j < s.len() implies orientation_wf(
                    #[trigger] s[j],
                    s[0],
                ) by {
                    assert(s[j] == orientations@[j]@);
                    assert(s[0] == orientations@[0]@);
                }
                assert(s[0] == orientations@[0]@);
                assert(coord_in_frame(s[0][0]));
                assert(tile_set_wf(s));
            }
            tiles.push(orientations);
            i += 1;
        }
        proof {
            broadcast use vstd::seq_lib::group_to_multiset_ensures;

            assert(tiles.deep_view() =~= base.map_values(
                |t: Seq<Coordinate>| spec_orientations(t),
            ));
        }
        let ghost generated = tiles.deep_view();
        shuffle_tile_sets(&mut tiles);
        proof {
            broadcast use vstd::seq_lib::group_to_multiset_ensures;

            assert forall|k: int| 0 <= k < tiles.deep_view().len() implies tile_set_wf(
                #[trigger] tiles.deep_view()[k],
            ) by {
                assert(tiles.deep_view().to_multiset().count(tiles.deep_view()[k]) > 0);
                assert(generated.contains(tiles.deep_view()[k]));
                let j = choose|j: int|
                    0 <= j < generated.len() && generated[j] == tiles.deep_view()[k];
                assert(tile_set_wf(generated[j]));
            }
            assert(tiles.deep_view().len() == generated.len()) by {
                assert(tiles.deep_view().to_multiset().len() == generated.to_multiset().len());
            }
            let p = choose|p: Seq<int>|
                #[trigger] index_permutation(p, generated.len() as int) && tiles.deep_view().len()
                    == generated.len() && forall|i: int|
                    0 <= i < p.len() ==> tiles.deep_view()[i] == generated[p[i]];
            assert(index_permutation(p, base.len() as int));
            assert forall|i: int| 0 <= i < p.len() implies tiles.deep_view()[i]
                == spec_orientations(base[p[i]]) by {
                assert(tiles.deep_view()[i] == generated[p[i]]);
                assert(generated[p[i]] == base.map_values(
                    |t: Seq<Coordinate>| spec_orientations(t),
                )[p[i]]);
            }
        }

        let sn = tiles.len();
        let mut placed: Vec<bool> = Vec::new();
        let mut i: usize = 0;
        while i < sn
            invariant
                i <= sn,
                placed@.len() == i,
                forall|k: int| 0 <= k < i ==> !(#[trigger] placed@[k]),
            decreases sn - i,
        {
            placed.push(false);
            i += 1;
        }

        let result = ActiveBoard { tile_set_placed: placed, tile_sets: tiles, open_coors };
        proof {
            assert(result.wf());
            assert(result.open_set() == tile_cells(board.spec_coors()).difference(
                tile_cells(board.spec_blocked(*pit).unwrap()),
            ));
        }
        Ok(result)
    }

    /// The lowest-keyed tile set that is not yet placed, with a working
    /// copy of its orientations, or `None` when every set is placed (which
    /// signals overall success to the search).
    pub fn get_next_tile_set(&self) -> (r: Option<ActiveTileSet>)
        requires
            self.wf(),
        ensures
            match r {
                Some(ts) => {
                    &&& 0 <= ts.spec_key() < self.num_sets()
                    &&& !self.placed()[ts.spec_key()]
                    &&& forall|j: int| 0 <= j < ts.spec_key() ==> self.placed()[j]
                    &&& ts.tiles.deep_view() == self.sets()[ts.spec_key()]
                },
                None => forall|i: int| 0 <= i < self.num_sets() ==> self.placed()[i],
            },
    {
        let n = self.tile_set_placed.len();
        let mut i: usize = 0;
        while i < n
            invariant
                self.wf(),
                n == self.placed().len(),
                i <= n,
                forall|j: int| 0 <= j < i ==> self.placed()[j],
            decreases n - i,
        {
            if !self.tile_set_placed[i] {
                return Some(ActiveTileSet { key: i, tiles: copy_tiles(&self.tile_sets[i]) });
            }
            i += 1;
        }
        None
    }

    /// Minimum cell count over the tile sets that are not yet placed, or
    /// `usize::MAX` when every set is placed.
    pub fn smallest_unplaced_tile_size(&self) -> (r: usize)
        requires
            self.wf(),
        ensures
            (forall|i: int| 0 <= i < self.num_sets() ==> self.placed()[i]) ==> r == usize::MAX,
            (exists|i: int| 0 <= i < self.num_sets() && !self.placed()[i]) ==> r < usize::MAX,
            forall|i: int|
                0 <= i < self.num_sets() && !self.placed()[i] ==> r <= #[trigger] self.set_size(i),
            (exists|i: int| 0 <= i < self.num_sets() && !self.placed()[i]) ==> exists|i: int|
                0 <= i < self.num_sets() && !self.placed()[i] && r == #[trigger] self.set_size(i),
    {
        let n = self.tile_sets.len();
        let mut best: usize = usize::MAX;
        let ghost mut seen: bool = false;
        let ghost mut witness: int = 0;
        let mut i: usize = 0;
        while i < n
            invariant
                self.wf(),
                n == self.num_sets(),
                i <= n,
                seen == exists|j: int| 0 <= j < i && !self.placed()[j],
                !seen ==> best == usize::MAX,
                seen ==> 0 <= witness < i && !self.placed()[witness] && best == self.set_size(
                    witness,
                ) && best < usize::MAX,
                forall|j: int|
                    0 <= j < i && !self.placed()[j] ==> best <= #[trigger] self.set_size(j),
            decreases n - i,
        {
            if !self.tile_set_placed[i] {
                proof {
                    assert(tile_set_wf(self.sets()[i as int]));
                    assert(self.tile_sets@[i as int].deep_view() == self.sets()[i as int]);
                    assert(self.tile_sets@[i as int]@.len() == self.sets()[i as int].len());
                }
                let row = &self.tile_sets[i];
                let first = &row[0];
                let size = first.len();
                proof {
                    assert(row@[0].deep_view() == self.sets()[i as int][0]);
                    assert(size == self.set_size(i as int));
                    assert(orientation_wf(self.sets()[i as int][0], self.sets()[i as int][0]));
                    lemma_bounded_tile_len(self.sets()[i as int][0]);
                    assert(size < usize::MAX);
                }
                if size < best {
                    best = size;
                    proof {
                        witness = i as int;
                        seen = true;
                    }
                } else {
                    proof {
                        if !seen {
                            // best was usize::MAX and size is not below it, so
                            // this first unplaced set itself attains best.
                            assert(size == usize::MAX);
                            witness = i as int;
                            seen = true;
                        }
                    }
                }
            }
            i += 1;
        }
        proof {
            if seen {
                assert(0 <= witness < self.num_sets() && !self.placed()[witness] && best
                    == self.set_size(witness));
            }
        }
        best
    }
}

impl ActiveBoard {
    /// The first open cell at or after scan position
    /// `start_x * GRID_SIZE + start_y`, in scan order.
    fn scan_open_from(&self, start_x: usize, start_y: usize) -> (r: Option<Coordinate>)
        requires
            self.wf(),
            start_x <= GRID_SIZE,
            start_y <= GRID_SIZE,
        ensures
            match r {
                Some(c2) => {
                    &&& self.open_set().contains(c2)
                    &&& raster_idx(c2) >= start_x * GRID_SIZE + start_y
                    &&& forall|d: Coordinate|
                        #[trigger] self.open_set().contains(d) && raster_idx(d) >= start_x
                            * GRID_SIZE + start_y ==> raster_idx(c2) <= raster_idx(d)
                },
                None => forall|d: Coordinate|
                    #[trigger] self.open_set().contains(d) ==> raster_idx(d) < start_x * GRID_SIZE
                        + start_y,
            },
    {
        let ghost idx0: int = start_x * (GRID_SIZE as int) + start_y;
        let mut x: usize = start_x;
        let mut sy: usize = start_y;
        while x < GRID_SIZE
            invariant
                self.wf(),
                idx0 == start_x * GRID_SIZE + start_y,
                x <= GRID_SIZE,
                sy <= GRID_SIZE,
                idx0 <= x * GRID_SIZE + sy,
                forall|d: Coordinate|
                    #[trigger] self.open_set().contains(d) && raster_idx(d) >= idx0
                        ==> raster_idx(d) >= x * GRID_SIZE + sy,
            decreases GRID_SIZE - x,
        {
            let mut y: usize = sy;
            while y < GRID_SIZE
                invariant
                    self.wf(),
                    idx0 == start_x * GRID_SIZE + start_y,
                    x < GRID_SIZE,
                    y <= GRID_SIZE,
                    idx0 <= x * GRID_SIZE + y,
                    forall|d: Coordinate|
                        #[trigger] self.open_set().contains(d) && raster_idx(d) >= idx0
                            ==> raster_idx(d) >= x * GRID_SIZE + y,
                decreases GRID_SIZE - y,
            {
                proof {
                    assert(self.open_coors@.len() == self.grid().len());
                    assert(self.open_coors@[x as int]@.len() == self.grid()[x as int].len());
                }
                if self.open_coors[x][y] {
                    let found = Coordinate { x: x as i32, y: y as i32 };
                    proof {
                        assert(self.grid()[x as int][y as int]);
                        assert(self.open_set().contains(found));
                        assert(raster_idx(found) == x * GRID_SIZE + y);
                        assert(raster_idx(found) >= start_x * GRID_SIZE + start_y);
                        assert forall|d: Coordinate|
                            #[trigger] self.open_set().contains(d) && raster_idx(d) >= start_x
                                * GRID_SIZE + start_y implies raster_idx(found) <= raster_idx(
                            d,
                        ) by {
                            assert(raster_idx(d) >= x * GRID_SIZE + y);
                        }
                    }
                    return Some(found);
                }
                proof {
                    let here = Coordinate { x: x as i32, y: y as i32 };
                    assert(!self.open_set().contains(here));
                    assert forall|d: Coordinate|
                        #[trigger] self.open_set().contains(d) && raster_idx(d) >= idx0 implies
                        raster_idx(d) >= x * GRID_SIZE + y + 1 by {
                        if raster_idx(d) == x * GRID_SIZE + y {
                            // a cell in the frame is pinned down by its scan
                            // position
                            assert(d.x == x && d.y == y);
                            assert(false);
                        }
                    }
                }
                y += 1;
            }
            x += 1;
            sy = 0;
        }
        proof {
            assert forall|d: Coordinate| #[trigger] self.open_set().contains(d) implies raster_idx(
                d,
            ) < idx0 by {
                assert(raster_idx(d) <= (GRID_SIZE as int) * (GRID_SIZE as int) - 1);
                assert(raster_idx(d) < x * GRID_SIZE + sy);
            }
        }
        None
    }

    /// The lowest open cell in scan order, if any.
    fn get_first_open_coor(&self) -> (r: Option<Coordinate>)
        requires
            self.wf(),
        ensures
            match r {
                Some(c2) => {
                    &&& self.open_set().contains(c2)
                    &&& forall|d: Coordinate|
                        #[trigger] self.open_set().contains(d) ==> raster_idx(c2) <= raster_idx(d)
                },
                None => self.open_set().is_empty(),
            },
    {
        let r = self.scan_open_from(0, 0);
        proof {
            match r {
                Some(c2) => {
                    assert forall|d: Coordinate| #[trigger] self.open_set().contains(d) implies
                        raster_idx(c2) <= raster_idx(d) by {
                        assert(raster_idx(d) >= 0);
                    }
                },
                None => {
                    assert forall|d: Coordinate| !(#[trigger] self.open_set().contains(d)) by {
                        if self.open_set().contains(d) {
                            assert(raster_idx(d) >= 0);
                        }
                    }
                    assert(self.open_set() =~= Set::empty());
                },
            }
        }
        r
    }

    /// The first open cell strictly after `current_coor` in scan order, or
    /// the very first open cell when `current_coor` is `None`, or `None`
    /// when the scan is exhausted.
    pub fn get_next_open_coor(&self, current_coor: Option<&Coordinate>) -> (r: Option<Coordinate>)
        requires
            self.wf(),
            match current_coor {
                Some(cc) => coord_in_frame(*cc),
                None => true,
            },
        ensures
            ({
                let prev = match current_coor {
                    Some(cc) => raster_idx(*cc),
                    None => -1,
                };
                match r {
                    Some(c2) => {
                        &&& self.open_set().contains(c2)
                        &&& raster_idx(c2) > prev
                        &&& forall|d: Coordinate|
                            #[trigger] self.open_set().contains(d) && raster_idx(d) > prev
                                ==> raster_idx(c2) <= raster_idx(d)
                    },
                    None => forall|d: Coordinate|
                        #[trigger] self.open_set().contains(d) ==> raster_idx(d) <= prev,
                }
            }),
    {
        let current_coor = match current_coor {
            Some(coor) => coor,
            None => {
                return self.get_first_open_coor();
            },
        };
        let x = current_coor.x as usize;
        let y = current_coor.y as usize;
        self.scan_open_from(x, y + 1)
    }

    /// Places `tile` for the tile set `set_key` if every cell of `tile` is
    /// open: the cells close and the set's placed flag rises. On any
    /// violation nothing changes and the call reports `false`. Callers must
    /// not place a set that is already placed.
    pub fn place_tile(&mut self, set_key: usize, tile: &Tile) -> (r: bool)
        requires
            old(self).wf(),
            set_key < old(self).num_sets(),
            !old(self).placed()[set_key as int],
        ensures
            final(self).wf(),
            final(self).sets() == old(self).sets(),
            r == tile_cells(tile@).subset_of(old(self).open_set()),
            r ==> final(self).placed() == old(self).placed().update(set_key as int, true),
            r ==> final(self).open_set() == old(self).open_set().difference(tile_cells(tile@)),
            !r ==> *final(self) == *old(self),
    {
        if !TileHelper::is_within_board(tile) {
            proof {
                let i = choose|i: int| 0 <= i < tile@.len() && !coord_in_frame(tile@[i]);
                assert(tile_cells(tile@).contains(tile@[i]));
                assert(!old(self).open_set().contains(tile@[i]));
            }
            return false;
        }
        let n = tile.len();
        let mut i: usize = 0;
        while i < n
            invariant
                self == old(self),
                self.wf(),
                n == tile@.len(),
                tile_in_frame(tile@),
                i <= n,
                forall|k: int| 0 <= k < i ==> self.open_set().contains(#[trigger] tile@[k]),
            decreases n - i,
        {
            let coor = tile[i];
            proof {
                assert(coord_in_frame(tile@[i as int]));
                assert(self.open_coors@.len() == self.grid().len());
                assert(self.open_coors@[coor.x as int]@.len() == self.grid()[coor.x as int].len());
            }
            if !self.open_coors[coor.x as usize][coor.y as usize] {
                proof {
                    assert(!self.open_set().contains(tile@[i as int]));
                    assert(tile_cells(tile@).contains(tile@[i as int]));
                }
                return false;
            }
            i += 1;
        }
        proof {
            assert forall|d: Coordinate| #[trigger] tile_cells(tile@).contains(d) implies old(
                self,
            ).open_set().contains(d) by {
                let k = choose|k: int| 0 <= k < tile@.len() && tile@[k] == d;
                assert(self.open_set().contains(tile@[k]));
            }
        }
        proof {
            assert(self.tile_set_placed@.len() == self.placed().len());
        }
        self.tile_set_placed[set_key] = true;
        let mut i: usize = 0;
        while i < n
            invariant
                self.wf(),
                self.sets() == old(self).sets(),
                self.placed() == old(self).placed().update(set_key as int, true),
                n == tile@.len(),
                tile_in_frame(tile@),
                i <= n,
                forall|k: int|
                    0 <= k < n ==> old(self).open_set().contains(#[trigger] tile@[k]),
                forall|d: Coordinate|
                    coord_in_frame(d) ==> #[trigger] self.grid()[d.x as int][d.y as int] == (old(
                        self,
                    ).grid()[d.x as int][d.y as int] && !(exists|k: int|
                        0 <= k < i && tile@[k] == d)),
            decreases n - i,
        {
            let coor = tile[i];
            let ghost pre = *self;
            proof {
                assert(coord_in_frame(tile@[i as int]));
                assert(self.open_coors@.len() == self.grid().len());
                assert(self.open_coors@[coor.x as int]@.len() == self.grid()[coor.x as int].len());
            }
            self.open_coors[coor.x as usize][coor.y as usize] = false;
            proof {
                assert(pre.wf());
                assert(pre.open_coors@.len() == pre.grid().len());
                assert(self.open_coors@.len() == pre.open_coors@.len());
                assert forall|a: int| 0 <= a < GRID_SIZE implies (#[trigger] self.grid()[a]).len()
                    == GRID_SIZE by {
                    assert(pre.grid()[a] == pre.open_coors@[a]@);
                    assert(pre.grid()[a].len() == GRID_SIZE);
                    assert(self.grid()[a] == self.open_coors@[a]@);
                    if a == coor.x as int {
                        assert(self.open_coors@[a]@ == pre.open_coors@[a]@.update(
                            coor.y as int,
                            false,
                        ));
                    } else {
                        assert(self.open_coors@[a] == pre.open_coors@[a]);
                    }
                }
                assert(self.sets() == pre.sets());
                assert(self.placed() == pre.placed());
                assert forall|d: Coordinate| coord_in_frame(d) implies #[trigger] self.grid()[d.x
                    as int][d.y as int] == (old(self).grid()[d.x as int][d.y as int] && !(
                exists|k: int| 0 <= k < i + 1 && tile@[k] == d)) by {
                    assert(self.grid()[d.x as int] == self.open_coors@[d.x as int]@);
                    assert(pre.grid()[d.x as int] == pre.open_coors@[d.x as int]@);
                    if d == tile@[i as int] {
                        assert(self.grid()[d.x as int][d.y as int] == false);
                        assert(tile@[i as int] == d);
                    } else {
                        if d.x == coor.x && d.y == coor.y {
                            assert(d == tile@[i as int]);
                        }
                        assert(self.grid()[d.x as int][d.y as int] == pre.grid()[d.x as int][d.y
                            as int]);
                        assert((exists|k: int| 0 <= k < i + 1 && tile@[k] == d) == (exists|k: int|
                            0 <= k < i && tile@[k] == d));
                    }
                }
            }
            i += 1;
        }
        proof {
            assert forall|d: Coordinate| #[trigger] self.open_set().contains(d) == old(
                self,
            ).open_set().difference(tile_cells(tile@)).contains(d) by {
                if coord_in_frame(d) {
                    assert(tile_cells(tile@).contains(d) == (exists|k: int|
                        0 <= k < n && tile@[k] == d));
                }
            }
            assert(self.open_set() =~= old(self).open_set().difference(tile_cells(tile@)));
        }
        true
    }

    /// Marks the tile set `set_key` unplaced again and reopens every cell of
    /// `tile`. Callers must pass exactly the tile most recently placed for
    /// that key, while it is placed; the contract makes the grid effect
    /// exact so that the inverse law below applies.
    pub fn remove_tile(&mut self, set_key: usize, tile: &Tile)
        requires
            old(self).wf(),
            set_key < old(self).num_sets(),
            old(self).placed()[set_key as int],
            tile_in_frame(tile@),
        ensures
            final(self).wf(),
            final(self).sets() == old(self).sets(),
            final(self).placed() == old(self).placed().update(set_key as int, false),
            final(self).open_set() == old(self).open_set().union(tile_cells(tile@)),
    {
        proof {
            assert(self.tile_set_placed@.len() == self.placed().len());
        }
        self.tile_set_placed[set_key] = false;
        let n = tile.len();
        let mut i: usize = 0;
        while i < n
            invariant
                self.wf(),
                self.sets() == old(self).sets(),
                self.placed() == old(self).placed().update(set_key as int, false),
                n == tile@.len(),
                tile_in_frame(tile@),
                i <= n,
                forall|d: Coordinate|
                    coord_in_frame(d) ==> #[trigger] self.grid()[d.x as int][d.y as int] == (old(
                        self,
                    ).grid()[d.x as int][d.y as int] || (exists|k: int|
                        0 <= k < i && tile@[k] == d)),
            decreases n - i,
        {
            let coor = tile[i];
            let ghost pre = *self;
            proof {
                assert(coord_in_frame(tile@[i as int]));
                assert(self.open_coors@.len() == self.grid().len());
                assert(self.open_coors@[coor.x as int]@.len() == self.grid()[coor.x as int].len());
            }
            self.open_coors[coor.x as usize][coor.y as usize] = true;
            proof {
                assert(pre.wf());
                assert(pre.open_coors@.len() == pre.grid().len());
                assert(self.open_coors@.len() == pre.open_coors@.len());
                assert forall|a: int| 0 <= a < GRID_SIZE implies (#[trigger] self.grid()[a]).len()
                    == GRID_SIZE by {
                    assert(pre.grid()[a] == pre.open_coors@[a]@);
                    assert(pre.grid()[a].len() == GRID_SIZE);
                    assert(self.grid()[a] == self.open_coors@[a]@);
                    if a == coor.x as int {
                        assert(self.open_coors@[a]@ == pre.open_coors@[a]@.update(
                            coor.y as int,
                            true,
                        ));
                    } else {
                        assert(self.open_coors@[a] == pre.open_coors@[a]);
                    }
                }
                assert(self.sets() == pre.sets());
                assert(self.placed() == pre.placed());
                assert forall|d: Coordinate| coord_in_frame(d) implies #[trigger] self.grid()[d.x
                    as int][d.y as int] == (old(self).grid()[d.x as int][d.y as int] || (
                exists|k: int| 0 <= k < i + 1 && tile@[k] == d)) by {
                    assert(self.grid()[d.x as int] == self.open_coors@[d.x as int]@);
                    assert(pre.grid()[d.x as int] == pre.open_coors@[d.x as int]@);
                    if d == tile@[i as int] {
                        assert(self.grid()[d.x as int][d.y as int] == true);
                        assert(tile@[i as int] == d);
                    } else {
                        if d.x == coor.x && d.y == coor.y {
                            assert(d == tile@[i as int]);
                        }
                        assert(self.grid()[d.x as int][d.y as int] == pre.grid()[d.x as int][d.y
                            as int]);
                        assert((exists|k: int| 0 <= k < i + 1 && tile@[k] == d) == (exists|k: int|
                            0 <= k < i && tile@[k] == d));
                    }
                }
            }
            i += 1;
        }
        proof {
            assert forall|d: Coordinate| #[trigger] self.open_set().contains(d) == old(
                self,
            ).open_set().union(tile_cells(tile@)).contains(d) by {
                if coord_in_frame(d) {
                    assert(tile_cells(tile@).contains(d) == (exists|k: int|
                        0 <= k < n && tile@[k] == d));
                } else {
                    if tile_cells(tile@).contains(d) {
                        let k = choose|k: int| 0 <= k < tile@.len() && tile@[k] == d;
                        assert(coord_in_frame(tile@[k]));
                    }
                }
            }
            assert(self.open_set() =~= old(self).open_set().union(tile_cells(tile@)));
        }
    }

    /// Flood fill of the maximal 4-connected open component containing the
    /// start cell, marking it visited: the returned island is exactly the
    /// newly visited area, is disjoint from everything already visited, and
    /// no open cell outside it and outside the previously visited area
    /// touches it.
    fn flood_fill(&self, visited: &mut Vec<Vec<bool>>, start_x: usize, start_y: usize) -> (island:
        Tile)
        requires
            self.wf(),
            grid_dims(old(visited).deep_view()),
            start_x < GRID_SIZE,
            start_y < GRID_SIZE,
            self.open_set().contains(Coordinate { x: start_x as i32, y: start_y as i32 }),
            !grid_set(old(visited).deep_view()).contains(
                Coordinate { x: start_x as i32, y: start_y as i32 },
            ),
            grid_set(old(visited).deep_view()).subset_of(self.open_set()),
            adj_closed(grid_set(old(visited).deep_view()), self.open_set()),
        ensures
            grid_dims(final(visited).deep_view()),
            island@.len() >= 1,
            tile_distinct(island@),
            tile_cells(island@).subset_of(self.open_set()),
            tile_cells(island@).disjoint(grid_set(old(visited).deep_view())),
            tile_cells(island@).contains(Coordinate { x: start_x as i32, y: start_y as i32 }),
            grid_set(final(visited).deep_view()) == grid_set(old(visited).deep_view()).union(
                tile_cells(island@),
            ),
            connected(tile_cells(island@)),
            adj_closed(tile_cells(island@), self.open_set()),
    {
        let ghost open: Set<Coordinate> = self.open_set();
        let ghost vs0: Set<Coordinate> = grid_set(old(visited).deep_view());
        let start = Coordinate { x: start_x as i32, y: start_y as i32 };
        let mut island: Tile = Vec::new();
        let mut stack: Vec<Coordinate> = Vec::new();
        stack.push(start);
        proof {
            lemma_frame_cells_finite(open);
            assert(stack@[0] == start);
            assert(stack@.contains(start));
            assert(tile_cells(island@) =~= Set::empty());
            assert(grid_set(visited.deep_view()) =~= vs0.union(tile_cells(island@)));
            assert(stack@ =~= seq![start]);
        }
        while stack.len() > 0
            invariant
                self.wf(),
                open == self.open_set(),
                open.finite(),
                vs0 == grid_set(old(visited).deep_view()),
                vs0.subset_of(open),
                adj_closed(vs0, open),
                !vs0.contains(start),
                open.contains(start),
                grid_dims(visited.deep_view()),
                grid_set(visited.deep_view()) == vs0.union(tile_cells(island@)),
                tile_distinct(island@),
                tile_cells(island@).subset_of(open),
                tile_cells(island@).disjoint(vs0),
                forall|k: int|
                    0 <= k < stack@.len() ==> open.contains(#[trigger] stack@[k]) && !vs0.contains(
                        stack@[k],
                    ),
                forall|ii: int, d: Coordinate|
                    0 <= ii < island@.len() && open.contains(d) && #[trigger] adjacent(
                        #[trigger] island@[ii],
                        d,
                    ) ==> tile_cells(island@).contains(d) || stack@.contains(d),
                island@.len() == 0 ==> stack@ =~= seq![start],
                island@.len() >= 1 ==> island@[0] == start && chain_connected(island@),
                forall|k: int|
                    0 <= k < stack@.len() ==> ((#[trigger] stack@[k]) == start || exists|j: int|
                        0 <= j < island@.len() && adjacent(island@[j], stack@[k])),
                tile_cells(island@).contains(start) || stack@.contains(start),
            decreases open.difference(grid_set(visited.deep_view())).len(), stack@.len(),
        {
            let ghost stack_pre = stack@;
            let current: Coordinate = match stack.pop() {
                Some(cc) => cc,
                None => {
                    proof {
                        assert(false);
                    }
                    Coordinate { x: 0, y: 0 }
                },
            };
            proof {
                assert(current == stack_pre[stack_pre.len() - 1]);
                assert(open.contains(current));
                assert(coord_in_frame(current));
                // a cell leaving the stack is either still on the stack or
                // will be accounted for below
                assert forall|d: Coordinate| #[trigger] stack_pre.contains(d) implies
                    stack@.contains(d) || d == current by {
                    let k = choose|k: int| 0 <= k < stack_pre.len() && stack_pre[k] == d;
                    if k < stack_pre.len() - 1 {
                        assert(stack@[k] == d);
                    }
                }
                assert(visited@.len() == visited.deep_view().len());
                assert(visited@[current.x as int]@.len() == visited.deep_view()[current.x
                    as int].len());
            }
            if visited[current.x as usize][current.y as usize] {
                proof {
                    assert(grid_set(visited.deep_view()).contains(current));
                    assert(tile_cells(island@).contains(current));
                    assert(island@.len() > 0);
                    assert forall|k: int|
                        0 <= k < stack@.len() implies ((#[trigger] stack@[k]) == start || exists|
                    j: int|
                        0 <= j < island@.len() && adjacent(island@[j], stack@[k])) by {
                        assert(stack@[k] == stack_pre[k]);
                    }
                }
                continue;
            }
            proof {
                assert(!grid_set(visited.deep_view()).contains(current));
                assert(!tile_cells(island@).contains(current));
            }
            let ghost visited_pre = *visited;
            let ghost island_pre = island@;
            visited[current.x as usize][current.y as usize] = true;
            island.push(current);
            proof {
                assert(visited@.len() == visited_pre@.len());
                assert forall|a: int| 0 <= a < GRID_SIZE implies (
                #[trigger] visited.deep_view()[a]).len() == GRID_SIZE by {
                    assert(visited_pre.deep_view()[a] == visited_pre@[a]@);
                    assert(visited.deep_view()[a] == visited@[a]@);
                    if a == current.x as int {
                        assert(visited@[a]@ == visited_pre@[a]@.update(current.y as int, true));
                    } else {
                        assert(visited@[a] == visited_pre@[a]);
                    }
                }
                assert(island@ == island_pre.push(current));
                assert forall|d: Coordinate| #[trigger] tile_cells(island@).contains(d) implies
                    tile_cells(island_pre).contains(d) || d == current by {
                    let k = choose|k: int| 0 <= k < island@.len() && island@[k] == d;
                    if k < island_pre.len() {
                        assert(island_pre[k] == d);
                    }
                }
                assert forall|d: Coordinate| #[trigger] tile_cells(island_pre).contains(d) implies
                    tile_cells(island@).contains(d) by {
                    let k = choose|k: int| 0 <= k < island_pre.len() && island_pre[k] == d;
                    assert(island@[k] == d);
                }
                assert(island@[island@.len() - 1] == current);
                assert(tile_cells(island@).contains(current));
                assert(tile_cells(island_pre).subset_of(open));
                assert forall|d: Coordinate|
                    #[trigger] grid_set(visited.deep_view()).contains(d) == vs0.union(
                        tile_cells(island@),
                    ).contains(d) by {
                    if coord_in_frame(d) {
                        assert(visited_pre.deep_view()[d.x as int] == visited_pre@[d.x as int]@);
                        assert(visited.deep_view()[d.x as int] == visited@[d.x as int]@);
                        if d == current {
                            assert(visited@[d.x as int]@[d.y as int] == true);
                            assert(grid_set(visited.deep_view()).contains(d));
                            assert(tile_cells(island@).contains(d));
                        } else {
                            if d.x == current.x && d.y == current.y {
                                assert(d == current);
                            }
                            assert(visited@[d.x as int]@[d.y as int] == visited_pre@[d.x
                                as int]@[d.y as int]);
                            assert(grid_set(visited.deep_view()).contains(d) == grid_set(
                                visited_pre.deep_view(),
                            ).contains(d));
                            assert(grid_set(visited_pre.deep_view()).contains(d) == vs0.union(
                                tile_cells(island_pre),
                            ).contains(d));
                            assert(tile_cells(island@).contains(d) == tile_cells(
                                island_pre,
                            ).contains(d));
                        }
                    } else {
                        assert(!grid_set(visited.deep_view()).contains(d));
                        if vs0.contains(d) {
                            assert(open.contains(d));
                            assert(coord_in_frame(d));
                            assert(false);
                        }
                        if tile_cells(island@).contains(d) {
                            assert(tile_cells(island_pre).contains(d) || d == current);
                            assert(open.contains(d));
                            assert(coord_in_frame(d));
                            assert(false);
                        }
                    }
                }
                assert(grid_set(visited.deep_view()) =~= vs0.union(tile_cells(island@)));
                assert forall|k: int| 0 <= k < stack_pre.len() - 1 implies stack@.contains(
                    #[trigger] stack_pre[k],
                ) by {
                    assert(stack@[k] == stack_pre[k]);
                }
                // the grown island stays anchored at the start cell and
                // chain-connected: the new cell came off the stack, so it is
                // the start itself or touches an earlier island cell
                if island_pre.len() == 0 {
                    assert(stack_pre =~= seq![start]);
                    assert(current == start);
                    assert(island@[0] == start);
                    assert(chain_connected(island@));
                } else {
                    assert(island@[0] == island_pre[0]);
                    assert(island_pre[0] == start);
                    assert(tile_cells(island_pre).contains(start));
                    assert(current != start);
                    assert(stack_pre[stack_pre.len() - 1] == current);
                    let bridge = choose|j: int|
                        0 <= j < island_pre.len() && adjacent(island_pre[j], current);
                    assert(island@[bridge] == island_pre[bridge]);
                    assert(adjacent(island@[bridge], island@[island@.len() - 1]));
                    assert(has_earlier_neighbor(island@, island@.len() - 1));
                    assert forall|k: int| 1 <= k < island@.len() implies has_earlier_neighbor(
                        island@,
                        k,
                    ) by {
                        if k < island_pre.len() {
                            assert(has_earlier_neighbor(island_pre, k));
                            let jj = choose|jj: int|
                                0 <= jj < k && adjacent(#[trigger] island_pre[jj], island_pre[k]);
                            assert(island@[jj] == island_pre[jj] && island@[k] == island_pre[k]);
                            assert(adjacent(island@[jj], island@[k]));
                        }
                    }
                    assert(chain_connected(island@));
                }
                assert forall|k: int|
                    0 <= k < stack@.len() implies ((#[trigger] stack@[k]) == start || exists|
                j: int|
                    0 <= j < island@.len() && adjacent(island@[j], stack@[k])) by {
                    assert(stack@[k] == stack_pre[k]);
                    if stack_pre[k] != start {
                        let j = choose|j: int|
                            0 <= j < island_pre.len() && adjacent(island_pre[j], stack_pre[k]);
                        assert(island@[j] == island_pre[j]);
                        assert(adjacent(island@[j], stack@[k]));
                    }
                }
                // the newly visited cell shrinks the unvisited open area
                assert(open.difference(grid_set(visited.deep_view())) =~= open.difference(
                    grid_set(visited_pre.deep_view()),
                ).remove(current));
                assert(open.difference(grid_set(visited_pre.deep_view())).contains(current));
                vstd::set_lib::lemma_set_subset_finite(open, open.difference(grid_set(
                    visited_pre.deep_view(),
                )));
            }
            let neighbors: Vec<Coordinate> = vec![
                Coordinate { x: current.x + 1, y: current.y },
                Coordinate { x: current.x - 1, y: current.y },
                Coordinate { x: current.x, y: current.y + 1 },
                Coordinate { x: current.x, y: current.y - 1 },
            ];
            proof {
                assert(adjacent(current, neighbors@[0]));
                assert(adjacent(current, neighbors@[1]));
                assert(adjacent(current, neighbors@[2]));
                assert(adjacent(current, neighbors@[3]));
                assert forall|d: Coordinate| #[trigger] adjacent(current, d) implies
                    neighbors@.contains(d) by {
                    if d.x == current.x + 1 && d.y == current.y {
                        assert(neighbors@[0] == d);
                    } else if d.x == current.x - 1 && d.y == current.y {
                        assert(neighbors@[1] == d);
                    } else if d.x == current.x && d.y == current.y + 1 {
                        assert(neighbors@[2] == d);
                    } else {
                        assert(neighbors@[3] == d);
                    }
                }
            }
            let mut j: usize = 0;
            while j < 4
                invariant
                    self.wf(),
                    open == self.open_set(),
                    vs0 == grid_set(old(visited).deep_view()),
                    vs0.subset_of(open),
                    adj_closed(vs0, open),
                    grid_dims(visited.deep_view()),
                    grid_set(visited.deep_view()) == vs0.union(tile_cells(island@)),
                    j <= 4,
                    neighbors@.len() == 4,
                    forall|jj: int| 0 <= jj < 4 ==> adjacent(current, #[trigger] neighbors@[jj]),
                    tile_cells(island@).contains(current),
                    island@.len() >= 1,
                    island@[island@.len() - 1] == current,
                    island@[0] == start,
                    chain_connected(island@),
                    forall|k: int|
                        0 <= k < stack@.len() ==> ((#[trigger] stack@[k]) == start || exists|
                        j2: int|
                            0 <= j2 < island@.len() && adjacent(island@[j2], stack@[k])),
                    forall|k: int|
                        0 <= k < stack@.len() ==> open.contains(#[trigger] stack@[k])
                            && !vs0.contains(stack@[k]),
                    forall|d: Coordinate|
                        open.contains(d) && #[trigger] adjacent(current, d) ==> tile_cells(
                            island@,
                        ).contains(d) || stack@.contains(d) || grid_set(
                            visited.deep_view(),
                        ).contains(d) || (exists|jj: int|
                            j <= jj < 4 && neighbors@[jj] == d),
                    forall|k: int|
                        0 <= k < stack_pre.len() - 1 ==> stack@.contains(#[trigger] stack_pre[k]),
                decreases 4 - j,
            {
                let neighbor = neighbors[j];
                let within = neighbor.x >= 0 && neighbor.x < GRID_SIZE as i32 && neighbor.y >= 0
                    && neighbor.y < GRID_SIZE as i32;
                let mut pushed = false;
                if within {
                    proof {
                        assert(self.open_coors@.len() == self.grid().len());
                        assert(self.open_coors@[neighbor.x as int]@.len() == self.grid()[neighbor.x
                            as int].len());
                        assert(visited@.len() == visited.deep_view().len());
                        assert(visited@[neighbor.x as int]@.len() == visited.deep_view()[neighbor.x
                            as int].len());
                    }
                    if self.open_coors[neighbor.x as usize][neighbor.y as usize]
                        && !visited[neighbor.x as usize][neighbor.y as usize] {
                        let ghost stack_before = stack@;
                        stack.push(neighbor);
                        pushed = true;
                        proof {
                            assert(open.contains(neighbor));
                            assert(!grid_set(visited.deep_view()).contains(neighbor));
                            assert(!vs0.contains(neighbor));
                            assert forall|k: int| 0 <= k < stack_before.len() implies
                                stack@.contains(#[trigger] stack_before[k]) by {
                                assert(stack@[k] == stack_before[k]);
                            }
                            assert(stack@[stack@.len() - 1] == neighbor);
                            assert(stack@.contains(neighbor));
                            assert(neighbor == neighbors@[j as int]);
                            assert(adjacent(current, neighbor));
                            assert forall|k: int|
                                0 <= k < stack@.len() implies ((#[trigger] stack@[k]) == start
                                    || exists|j2: int|
                                    0 <= j2 < island@.len() && adjacent(
                                        island@[j2],
                                        stack@[k],
                                    )) by {
                                if k < stack_before.len() {
                                    assert(stack@[k] == stack_before[k]);
                                } else {
                                    assert(stack@[k] == neighbor);
                                    assert(adjacent(island@[island@.len() - 1], neighbor));
                                }
                            }
                        }
                    }
                }
                proof {
                    let d = neighbors@[j as int];
                    if open.contains(d) {
                        if !tile_cells(island@).contains(d) && !stack@.contains(d) && !grid_set(
                            visited.deep_view(),
                        ).contains(d) {
                            // d is open, hence within the frame, so the
                            // bounds test cannot be what rejected it
                            assert(coord_in_frame(d));
                            assert(within || d != neighbors@[j as int]);
                            assert(false);
                        }
                    }
                }
                j += 1;
            }
            proof {
                // neighbours already visited lie in the current island, not
                // in the previously visited area, which is adjacency-closed
                assert forall|ii: int, d: Coordinate|
                    0 <= ii < island@.len() && open.contains(d) && #[trigger] adjacent(
                        #[trigger] island@[ii],
                        d,
                    ) implies tile_cells(island@).contains(d) || stack@.contains(d) by {
                    if island@[ii] == current {
                        if grid_set(visited.deep_view()).contains(d) {
                            if vs0.contains(d) {
                                assert(adjacent(d, current));
                                assert(vs0.contains(current));
                                assert(false);
                            }
                            assert(tile_cells(island@).contains(d));
                        }
                    } else {
                        assert(0 <= ii < island_pre.len() && island_pre[ii] == island@[ii]);
                        assert(tile_cells(island_pre).contains(d) || stack_pre.contains(d));
                        if !tile_cells(island_pre).contains(d) && stack_pre.contains(d) {
                            assert(stack@.contains(d) || d == current);
                        }
                        if tile_cells(island_pre).contains(d) {
                            let k = choose|k: int|
                                0 <= k < island_pre.len() && island_pre[k] == d;
                            assert(island@[k] == d);
                            assert(tile_cells(island@).contains(d));
                        }
                    }
                }
                assert(tile_cells(island@).contains(start) || stack@.contains(start));
            }
        }
        proof {
            assert(island@.len() >= 1);
            assert(tile_cells(island@).contains(start));
            assert(adj_closed(tile_cells(island@), open));
            assert(chain_connected(island@));
            lemma_chain_connected(island@);
        }
        island
    }

    /// Partitions the currently open cells into their maximal 4-connected
    /// components, via repeated flood fill in scan order. Each component is
    /// reported once, as a list of its cells.
    pub fn find_islands(&self) -> (islands: Vec<Tile>)
        requires
            self.wf(),
        ensures
            islands_wf(islands.deep_view(), self.open_set()),
    {
        let ghost open: Set<Coordinate> = self.open_set();
        let mut visited: Vec<Vec<bool>> = blank_grid();
        let mut islands: Vec<Tile> = Vec::new();
        proof {
            assert(grid_set(visited.deep_view()) =~= Set::empty());
            assert(islands.deep_view() =~= Seq::<Seq<Coordinate>>::empty());
        }
        let mut x: usize = 0;
        while x < GRID_SIZE
            invariant
                self.wf(),
                open == self.open_set(),
                x <= GRID_SIZE,
                grid_dims(visited.deep_view()),
                grid_set(visited.deep_view()).subset_of(open),
                adj_closed(grid_set(visited.deep_view()), open),
                forall|k: int|
                    0 <= k < islands.deep_view().len() ==> {
                        &&& (#[trigger] islands.deep_view()[k]).len() >= 1
                        &&& tile_distinct(islands.deep_view()[k])
                        &&& tile_cells(islands.deep_view()[k]).subset_of(open)
                        &&& connected(tile_cells(islands.deep_view()[k]))
                        &&& adj_closed(tile_cells(islands.deep_view()[k]), open)
                    },
                forall|k1: int, k2: int|
                    0 <= k1 < k2 < islands.deep_view().len() ==> tile_cells(
                        #[trigger] islands.deep_view()[k1],
                    ).disjoint(tile_cells(#[trigger] islands.deep_view()[k2])),
                forall|d: Coordinate|
                    #[trigger] grid_set(visited.deep_view()).contains(d) <==> exists|k: int|
                        0 <= k < islands.deep_view().len() && tile_cells(
                            #[trigger] islands.deep_view()[k],
                        ).contains(d),
                forall|d: Coordinate|
                    open.contains(d) && raster_idx(d) < x * GRID_SIZE ==> #[trigger] grid_set(
                        visited.deep_view(),
                    ).contains(d),
            decreases GRID_SIZE - x,
        {
            let mut y: usize = 0;
            while y < GRID_SIZE
                invariant
                    self.wf(),
                    open == self.open_set(),
                    x < GRID_SIZE,
                    y <= GRID_SIZE,
                    grid_dims(visited.deep_view()),
                    grid_set(visited.deep_view()).subset_of(open),
                    adj_closed(grid_set(visited.deep_view()), open),
                    forall|k: int|
                        0 <= k < islands.deep_view().len() ==> {
                            &&& (#[trigger] islands.deep_view()[k]).len() >= 1
                            &&& tile_distinct(islands.deep_view()[k])
                            &&& tile_cells(islands.deep_view()[k]).subset_of(open)
                            &&& connected(tile_cells(islands.deep_view()[k]))
                            &&& adj_closed(tile_cells(islands.deep_view()[k]), open)
                        },
                    forall|k1: int, k2: int|
                        0 <= k1 < k2 < islands.deep_view().len() ==> tile_cells(
                            #[trigger] islands.deep_view()[k1],
                        ).disjoint(tile_cells(#[trigger] islands.deep_view()[k2])),
                    forall|d: Coordinate|
                        #[trigger] grid_set(visited.deep_view()).contains(d) <==> exists|k: int|
                            0 <= k < islands.deep_view().len() && tile_cells(
                                #[trigger] islands.deep_view()[k],
                            ).contains(d),
                    forall|d: Coordinate|
                        open.contains(d) && raster_idx(d) < x * GRID_SIZE + y ==> #[trigger]
                        grid_set(visited.deep_view()).contains(d),
                decreases GRID_SIZE - y,
            {
                proof {
                    assert(self.open_coors@.len() == self.grid().len());
                    assert(self.open_coors@[x as int]@.len() == self.grid()[x as int].len());
                    assert(visited@.len() == visited.deep_view().len());
                    assert(visited@[x as int]@.len() == visited.deep_view()[x as int].len());
                }
                let here = Coordinate { x: x as i32, y: y as i32 };
                if self.open_coors[x][y] && !visited[x][y] {
                    proof {
                        assert(open.contains(here));
                        assert(!grid_set(visited.deep_view()).contains(here));
                    }
                    let ghost vs_before: Set<Coordinate> = grid_set(visited.deep_view());
                    let ghost islands_before = islands.deep_view();
                    let island = self.flood_fill(&mut visited, x, y);
                    islands.push(island);
                    proof {
                        assert(islands.deep_view() =~= islands_before.push(island@));
                        let cells = tile_cells(island@);
                        // the union of two adjacency-closed sets is closed
                        assert forall|a: Coordinate, b: Coordinate|
                            grid_set(visited.deep_view()).contains(a) && open.contains(b)
                                && #[trigger] adjacent(a, b) implies grid_set(
                            visited.deep_view(),
                        ).contains(b) by {
                            assert(vs_before.contains(a) || cells.contains(a));
                        }
                        // a new island is disjoint from every earlier one
                        assert forall|k1: int, k2: int|
                            0 <= k1 < k2 < islands.deep_view().len() implies tile_cells(
                            #[trigger] islands.deep_view()[k1],
                        ).disjoint(tile_cells(#[trigger] islands.deep_view()[k2])) by {
                            if k2 == islands.deep_view().len() - 1 {
                                assert(islands.deep_view()[k2] == island@);
                                assert forall|d: Coordinate|
                                    tile_cells(islands_before[k1]).contains(d) implies !cells
                                    .contains(d) by {
                                    assert(vs_before.contains(d));
                                }
                            } else {
                                assert(islands.deep_view()[k1] == islands_before[k1]);
                                assert(islands.deep_view()[k2] == islands_before[k2]);
                            }
                        }
                        // visited is still exactly the union of the islands
                        assert forall|d: Coordinate|
                            #[trigger] grid_set(visited.deep_view()).contains(d) <==> exists|
                            k: int|
                                0 <= k < islands.deep_view().len() && tile_cells(
                                    #[trigger] islands.deep_view()[k],
                                ).contains(d) by {
                            if grid_set(visited.deep_view()).contains(d) {
                                if vs_before.contains(d) {
                                    let k = choose|k: int|
                                        0 <= k < islands_before.len() && tile_cells(
                                            islands_before[k],
                                        ).contains(d);
                                    assert(islands.deep_view()[k] == islands_before[k]);
                                    assert(tile_cells(islands.deep_view()[k]).contains(d));
                                } else {
                                    assert(cells.contains(d));
                                    let k = islands.deep_view().len() - 1;
                                    assert(tile_cells(islands.deep_view()[k]).contains(d));
                                }
                            }
                            if exists|k: int|
                                0 <= k < islands.deep_view().len() && tile_cells(
                                    #[trigger] islands.deep_view()[k],
                                ).contains(d) {
                                let k = choose|k: int|
                                    0 <= k < islands.deep_view().len() && tile_cells(
                                        #[trigger] islands.deep_view()[k],
                                    ).contains(d);
                                if k < islands_before.len() {
                                    assert(islands_before[k] == islands.deep_view()[k]);
                                    assert(vs_before.contains(d));
                                } else {
                                    assert(cells.contains(d));
                                }
                                assert(grid_set(visited.deep_view()).contains(d));
                            }
                        }
                        assert(grid_set(visited.deep_view()).contains(here));
                    }
                }
                proof {
                    assert forall|d: Coordinate|
                        open.contains(d) && raster_idx(d) < x * GRID_SIZE + y + 1 implies
                        #[trigger] grid_set(visited.deep_view()).contains(d) by {
                        if raster_idx(d) == x * GRID_SIZE + y {
                            assert(d.x == x && d.y == y);
                            assert(d == here);
                        }
                    }
                }
                y += 1;
            }
            x += 1;
        }
        proof {
            assert forall|d: Coordinate| #[trigger] open.contains(d) implies grid_set(
                visited.deep_view(),
            ).contains(d) by {
                assert(raster_idx(d) <= (GRID_SIZE as int) * (GRID_SIZE as int) - 1);
            }
        }
        islands
    }
}

/// Placing a tile and then removing that exact tile restores the open-cell
/// set bit for bit: `place_tile` turns the open set `s` into
/// `s - t` exactly when the tile's cells `t` were all open, and
/// `remove_tile` then turns `s - t` back into `s`.
pub proof fn lemma_place_remove_inverse(s: Set<Coordinate>, t: Set<Coordinate>)
    requires
        t.subset_of(s),
    ensures
        s.difference(t).union(t) == s,
{
    assert(s.difference(t).union(t) =~= s);
}

/// After a successful placement of a tile with cells `t1`, none of those
/// cells is open any more, so placing any tile that overlaps `t1` fails
/// (and by `place_tile`'s contract a failed placement changes nothing).
pub proof fn lemma_placement_exclusivity(
    s: Set<Coordinate>,
    t1: Set<Coordinate>,
    t2: Set<Coordinate>,
)
    requires
        t1.subset_of(s),
        exists|d: Coordinate| t1.contains(d) && t2.contains(d),
    ensures
        forall|d: Coordinate| t1.contains(d) ==> !s.difference(t1).contains(d),
        !t2.subset_of(s.difference(t1)),
{
    let d = choose|d: Coordinate| t1.contains(d) && t2.contains(d);
    assert(!s.difference(t1).contains(d));
}


/// Relies on rand's slice shuffle (`SliceRandom::shuffle`): a Fisher-Yates
/// sequence of element swaps in place, so the result is the old list read
/// through some permutation of its positions, and in particular its
/// multiset of tile sets is unchanged. `rand::rng` aborts only if the
/// operating system fails to seed the generator.
#[verifier::external_body]
fn shuffle_tile_sets(sets: &mut Vec<Vec<Tile>>)
    ensures
        final(sets).deep_view().to_multiset() == old(sets).deep_view().to_multiset(),
        exists|p: Seq<int>|
            #[trigger] index_permutation(p, old(sets)@.len() as int)
                && final(sets).deep_view().len() == old(sets).deep_view().len() && forall|i: int|
                0 <= i < p.len() ==> final(sets).deep_view()[i] == old(sets).deep_view()[p[i]],
{
    rand::seq::SliceRandom::shuffle(sets.as_mut_slice(), &mut rand::rng());
}

/// A `GRID_SIZE` by `GRID_SIZE` grid of `false`.
fn blank_grid() -> (g: Vec<Vec<bool>>)
    ensures
        grid_dims(g.deep_view()),
        forall|a: int, b: int|
            0 <= a < GRID_SIZE && 0 <= b < GRID_SIZE ==> !(#[trigger] g.deep_view()[a][b]),
{
    let mut g: Vec<Vec<bool>> = Vec::new();
    let mut a: usize = 0;
    while a < GRID_SIZE
        invariant
            a <= GRID_SIZE,
            g@.len() == a,
            forall|i: int|
                0 <= i < a ==> (#[trigger] g@[i])@.len() == GRID_SIZE && forall|b: int|
                    0 <= b < GRID_SIZE ==> !(#[trigger] g@[i]@[b]),
        decreases GRID_SIZE - a,
    {
        let mut row: Vec<bool> = Vec::new();
        let mut b: usize = 0;
        while b < GRID_SIZE
            invariant
                b <= GRID_SIZE,
                row@.len() == b,
                forall|i: int| 0 <= i < b ==> !(#[trigger] row@[i]),
            decreases GRID_SIZE - b,
        {
            row.push(false);
            b += 1;
        }
        g.push(row);
        a += 1;
    }
    g
}

} // verus!
