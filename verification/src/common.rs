//! Shared value types: grid coordinates, tiles, dates, errors, and the
//! interface a puzzle board must offer to the solver.

use vstd::prelude::*;

verus! {

/// Side length of the square grid every board lives in. Every coordinate a
/// board or a tile occupies must have both components in `[0, GRID_SIZE)`.
pub const GRID_SIZE: usize = 16;

/// One grid cell, identified by its column `x` and row `y`. Bounds are a
/// board-state invariant, not a type invariant.
#[derive(Debug, Clone, Copy, PartialEq, Eq, Hash, Structural)]
pub struct Coordinate {
    pub x: i32,
    pub y: i32,
}

impl vstd::view::DeepView for Coordinate {
    type V = Coordinate;

    open spec fn deep_view(&self) -> Coordinate {
        *self
    }
}

/// A list of coordinates views and deep-views to the same sequence, since a
/// coordinate is its own mathematical value.
pub broadcast proof fn lemma_tile_deep_view(t: Vec<Coordinate>)
    ensures
        #[trigger] t.deep_view() == t@,
{
    assert(t.deep_view() =~= t@);
}

/// The deep view of a list of tiles has one entry per tile.
pub broadcast proof fn lemma_tiles_deep_view_len(v: Vec<Vec<Coordinate>>)
    ensures
        #[trigger] v.deep_view().len() == v@.len(),
{
}

/// Indexing the deep view of a list of tiles gives that tile's sequence of
/// cells.
pub broadcast proof fn lemma_tiles_deep_view_index(v: Vec<Vec<Coordinate>>, k: int)
    requires
        0 <= k < v@.len(),
    ensures
        #[trigger] v.deep_view()[k] == v@[k]@,
{
    broadcast use lemma_tile_deep_view;

    assert(v.deep_view()[k] == v@[k].deep_view());
}

/// The deep view of a list of tile sets has one entry per set.
pub broadcast proof fn lemma_tile_sets_deep_view_len(v: Vec<Vec<Vec<Coordinate>>>)
    ensures
        #[trigger] v.deep_view().len() == v@.len(),
{
}

/// Indexing the deep view of a list of tile sets gives that set's deep
/// view.
pub broadcast proof fn lemma_tile_sets_deep_view_index(v: Vec<Vec<Vec<Coordinate>>>, k: int)
    requires
        0 <= k < v@.len(),
    ensures
        #[trigger] v.deep_view()[k] == v@[k].deep_view(),
{
}

/// A grid row of booleans views and deep-views to the same sequence.
pub broadcast proof fn lemma_row_deep_view(v: Vec<bool>)
    ensures
        #[trigger] v.deep_view() == v@,
{
    assert(v.deep_view() =~= v@);
}

/// The deep view of a boolean grid has one entry per column.
pub broadcast proof fn lemma_grid_deep_view_len(v: Vec<Vec<bool>>)
    ensures
        #[trigger] v.deep_view().len() == v@.len(),
{
}

/// Indexing the deep view of a boolean grid gives that column's sequence.
pub broadcast proof fn lemma_grid_deep_view_index(v: Vec<Vec<bool>>, k: int)
    requires
        0 <= k < v@.len(),
    ensures
        #[trigger] v.deep_view()[k] == v@[k]@,
{
    broadcast use lemma_row_deep_view;

    assert(v.deep_view()[k] == v@[k].deep_view());
}

/// Shorthand constructor for a [`Coordinate`].
pub fn c(x: i32, y: i32) -> (r: Coordinate)
    ensures
        r == (Coordinate { x, y }),
{
    Coordinate { x, y }
}

/// Spec-level counterpart of [`c`].
pub open spec fn spec_c(x: i32, y: i32) -> Coordinate {
    Coordinate { x, y }
}

/// A polyomino as an ordered list of cells; element 0 is the anchor that
/// rotation, flipping and offset computations pivot on.
pub type Tile = Vec<Coordinate>;

/// Whether a cell lies inside the fixed grid.
pub open spec fn coord_in_frame(c: Coordinate) -> bool {
    0 <= c.x < GRID_SIZE && 0 <= c.y < GRID_SIZE
}

/// Whether every cell of a tile lies inside the fixed grid.
pub open spec fn tile_in_frame(t: Seq<Coordinate>) -> bool {
    forall|i: int| 0 <= i < t.len() ==> coord_in_frame(#[trigger] t[i])
}

/// Whether a tile lists no cell twice.
pub open spec fn tile_distinct(t: Seq<Coordinate>) -> bool {
    forall|i: int, j: int| 0 <= i < j < t.len() ==> t[i] != t[j]
}

/// The set of cells a tile occupies.
pub open spec fn tile_cells(t: Seq<Coordinate>) -> Set<Coordinate> {
    t.to_set()
}

/// Whether two cells share an edge (4-connectivity).
pub open spec fn adjacent(a: Coordinate, b: Coordinate) -> bool {
    ||| (a.x == b.x && (a.y - b.y == 1 || b.y - a.y == 1))
    ||| (a.y == b.y && (a.x - b.x == 1 || b.x - a.x == 1))
}

/// Whether cell `k` of a tile touches a cell listed before it.
pub open spec fn has_earlier_neighbor(t: Seq<Coordinate>, k: int) -> bool {
    exists|j: int| 0 <= j < k && adjacent(#[trigger] t[j], t[k])
}

/// Whether every cell of a tile after the first touches some earlier cell:
/// an easily checked, order-sensitive witness of connectivity.
pub open spec fn chain_connected(t: Seq<Coordinate>) -> bool {
    &&& t.len() >= 1
    &&& forall|k: int| 1 <= k < t.len() ==> has_earlier_neighbor(t, k)
}

/// Whether some position of `p` holds the index `j`.
pub open spec fn hits_index(p: Seq<int>, j: int) -> bool {
    exists|i: int| 0 <= i < p.len() && #[trigger] p[i] == j
}

/// Whether `p` lists each index below `n` exactly once: a reordering of
/// the positions of an `n`-element list.
pub open spec fn index_permutation(p: Seq<int>, n: int) -> bool {
    &&& p.len() == n
    &&& forall|i: int| 0 <= i < n ==> 0 <= #[trigger] p[i] < n
    &&& forall|i1: int, i2: int| 0 <= i1 < i2 < n ==> p[i1] != p[i2]
    &&& forall|j: int| 0 <= j < n ==> #[trigger] hits_index(p, j)
}

/// What a board's tile catalogue must satisfy: every shape is nonempty,
/// lists no cell twice, lies inside the grid, and is 4-connected in listing
/// order (each cell touches an earlier one).
pub open spec fn catalog_wf(ts: Seq<Seq<Coordinate>>) -> bool {
    forall|k: int|
        0 <= k < ts.len() ==> {
            &&& (#[trigger] ts[k]).len() >= 1
            &&& tile_distinct(ts[k])
            &&& tile_in_frame(ts[k])
            &&& chain_connected(ts[k])
        }
}

/// Whether every cell of a tile stays within `GRID_SIZE - 1` of its anchor
/// on both axes. Translation moves a tile's anchor but never changes these
/// anchor-relative offsets, so this bound survives every re-anchoring.
pub open spec fn tile_rel_bounded(t: Seq<Coordinate>) -> bool {
    forall|i: int|
        0 <= i < t.len() ==> {
            &&& -(GRID_SIZE - 1) <= (#[trigger] t[i]).x - t[0].x <= GRID_SIZE - 1
            &&& -(GRID_SIZE - 1) <= t[i].y - t[0].y <= GRID_SIZE - 1
        }
}

/// A verified deep copy of one tile; the copy and the original have the
/// same view.
pub fn copy_tile(tile: &Tile) -> (r: Tile)
    ensures
        r@ == tile@,
{
    let n = tile.len();
    let mut r: Tile = Vec::new();
    let mut i: usize = 0;
    while i < n
        invariant
            n == tile@.len(),
            i <= n,
            r@ == tile@.take(i as int),
        decreases n - i,
    {
        r.push(tile[i]);
        proof {
            assert(r@ =~= tile@.take(i + 1));
        }
        i += 1;
    }
    proof {
        assert(r@ =~= tile@);
    }
    r
}

/// A verified deep copy of a list of tiles; the copy and the original have
/// the same deep view.
pub fn copy_tiles(tiles: &Vec<Tile>) -> (r: Vec<Tile>)
    ensures
        r.deep_view() == tiles.deep_view(),
{
    let n = tiles.len();
    let mut r: Vec<Tile> = Vec::new();
    let mut i: usize = 0;
    while i < n
        invariant
            n == tiles@.len(),
            i <= n,
            r@.len() == i,
            forall|k: int| 0 <= k < i ==> (#[trigger] r@[k])@ == tiles@[k]@,
        decreases n - i,
    {
        r.push(copy_tile(&tiles[i]));
        i += 1;
    }
    proof {
        broadcast use {lemma_tiles_deep_view_len, lemma_tiles_deep_view_index};

        assert forall|k: int| 0 <= k < n implies r.deep_view()[k] == tiles.deep_view()[k] by {
            assert(r.deep_view()[k] == r@[k]@);
            assert(tiles.deep_view()[k] == tiles@[k]@);
        }
        assert(r.deep_view() =~= tiles.deep_view());
    }
    r
}

/// A month of the year.
#[derive(Debug, Clone, Copy, PartialEq, Eq, Structural)]
pub enum Month {
    January,
    February,
    March,
    April,
    May,
    June,
    July,
    August,
    September,
    October,
    November,
    December,
}

/// A day of the week.
#[derive(Debug, Clone, Copy, PartialEq, Eq, Structural)]
pub enum WeekDay {
    Sunday,
    Monday,
    Tuesday,
    Wednesday,
    Thursday,
    Friday,
    Saturday,
}

/// The month that a 1-based month number denotes, if any.
pub open spec fn spec_month_from_u32(value: u32) -> Option<Month> {
    match value {
        1u32 => Some(Month::January),
        2u32 => Some(Month::February),
        3u32 => Some(Month::March),
        4u32 => Some(Month::April),
        5u32 => Some(Month::May),
        6u32 => Some(Month::June),
        7u32 => Some(Month::July),
        8u32 => Some(Month::August),
        9u32 => Some(Month::September),
        10u32 => Some(Month::October),
        11u32 => Some(Month::November),
        12u32 => Some(Month::December),
        _ => None,
    }
}

impl Month {
    /// Maps the 1-based month numbering to a [`Month`]; out-of-range
    /// numbers yield `None`.
    pub fn from_u32(value: u32) -> (r: Option<Month>)
        ensures
            r == spec_month_from_u32(value),
    {
        match value {
            1 => Some(Month::January),
            2 => Some(Month::February),
            3 => Some(Month::March),
            4 => Some(Month::April),
            5 => Some(Month::May),
            6 => Some(Month::June),
            7 => Some(Month::July),
            8 => Some(Month::August),
            9 => Some(Month::September),
            10 => Some(Month::October),
            11 => Some(Month::November),
            12 => Some(Month::December),
            _ => None,
        }
    }
}

/// The weekday that a 0-based day number (Sunday = 0) denotes, if any.
pub open spec fn spec_week_day_from_u32(value: u32) -> Option<WeekDay> {
    match value {
        0u32 => Some(WeekDay::Sunday),
        1u32 => Some(WeekDay::Monday),
        2u32 => Some(WeekDay::Tuesday),
        3u32 => Some(WeekDay::Wednesday),
        4u32 => Some(WeekDay::Thursday),
        5u32 => Some(WeekDay::Friday),
        6u32 => Some(WeekDay::Saturday),
        _ => None,
    }
}

impl WeekDay {
    /// Maps the 0-based weekday numbering (Sunday = 0) to a [`WeekDay`];
    /// out-of-range numbers yield `None`.
    pub fn from_u32(value: u32) -> (r: Option<WeekDay>)
        ensures
            r == spec_week_day_from_u32(value),
    {
        match value {
            0 => Some(WeekDay::Sunday),
            1 => Some(WeekDay::Monday),
            2 => Some(WeekDay::Tuesday),
            3 => Some(WeekDay::Wednesday),
            4 => Some(WeekDay::Thursday),
            5 => Some(WeekDay::Friday),
            6 => Some(WeekDay::Saturday),
            _ => None,
        }
    }
}

/// A 1-based day of the month.
pub type DayOfMonth = u32;

/// The point in time a puzzle instance is solved for: which cells a board
/// blocks depends only on these three components.
#[derive(Debug, Clone, Copy, PartialEq, Eq, Structural)]
pub struct AllTime {
    month: Month,
    day_of_month: DayOfMonth,
    week_day: WeekDay,
}

impl AllTime {
    /// The month component.
    pub closed spec fn spec_month(self) -> Month {
        self.month
    }

    /// The day-of-month component.
    pub closed spec fn spec_day_of_month(self) -> DayOfMonth {
        self.day_of_month
    }

    /// The weekday component.
    pub closed spec fn spec_week_day(self) -> WeekDay {
        self.week_day
    }

    pub fn new(month: Month, day_of_month: DayOfMonth, week_day: WeekDay) -> (r: AllTime)
        ensures
            r.spec_month() == month,
            r.spec_day_of_month() == day_of_month,
            r.spec_week_day() == week_day,
    {
        AllTime { month, day_of_month, week_day }
    }

    pub fn month(&self) -> (r: &Month)
        ensures
            *r == self.spec_month(),
    {
        &self.month
    }

    pub fn day_of_month(&self) -> (r: DayOfMonth)
        ensures
            r == self.spec_day_of_month(),
    {
        self.day_of_month
    }

    pub fn week_day(&self) -> (r: &WeekDay)
        ensures
            *r == self.spec_week_day(),
    {
        &self.week_day
    }
}

/// Why a solve attempt yielded no solution list.
#[derive(Debug, Clone, Copy, PartialEq, Eq, Structural)]
pub enum SolveError {
    /// The board has no blocked-cell mapping for the requested point in
    /// time (for example, a day-of-month outside the board's calendar).
    InvalidPointInTime,
    /// The search exhausted every placement without covering the board.
    NoSolutionFound,
}

/// What a physical puzzle board supplies to the solver: a display name, the
/// catalogue of base tile shapes, the cells that form the board, and the
/// date-dependent blocked cells.
pub trait CustomBoard: Sized {
    /// The base tile shapes, as the mathematical value `tiles` returns.
    spec fn spec_tiles(&self) -> Seq<Seq<Coordinate>>;

    /// The board's cells, as the mathematical value `coors` returns.
    spec fn spec_coors(&self) -> Seq<Coordinate>;

    /// The blocked cells for a point in time, or `None` where the board has
    /// no mapping for it.
    spec fn spec_blocked(&self, pit: AllTime) -> Option<Seq<Coordinate>>;

    /// A human-readable name for the board.
    fn name(&self) -> String;

    /// The catalogue of base tile shapes; anchor is the first element of
    /// each shape.
    fn tiles(&self) -> (r: Vec<Tile>)
        ensures
            r.deep_view() == self.spec_tiles(),
            catalog_wf(self.spec_tiles()),
    ;

    /// Every cell that is part of the board's shape.
    fn coors(&self) -> (r: Vec<Coordinate>)
        ensures
            r@ == self.spec_coors(),
            tile_in_frame(self.spec_coors()),
    ;

    /// The cells to block for `pit`, or `None` where `pit` has no mapping
    /// on this board.
    fn point_in_time(&self, pit: &AllTime) -> (r: Option<Vec<Coordinate>>)
        ensures
            match r {
                Some(v) => self.spec_blocked(*pit) == Some(v@) && tile_in_frame(v@),
                None => self.spec_blocked(*pit) is None,
            },
    ;
}

} // verus!
