//! Pure geometry on tiles: anchor offsets, translation, 90-degree
//! counter-clockwise rotation and horizontal flipping about the anchor, and
//! the in-grid check. Each transform is specified against an exact
//! mathematical counterpart over unbounded integers, and the closure
//! properties of those counterparts (four rotations or two flips restore a
//! shape, and rotation is an isometry) are proved below.

use vstd::prelude::*;

use crate::common::{
    adjacent, chain_connected, coord_in_frame, copy_tile, has_earlier_neighbor, tile_distinct,
    tile_in_frame, tile_rel_bounded, Coordinate, Tile, GRID_SIZE,
};

verus! {

/// A tile as a sequence of unbounded-integer cells, the form the
/// mathematical transforms work on.
pub open spec fn tile_math(t: Seq<Coordinate>) -> Seq<(int, int)> {
    t.map_values(|c: Coordinate| (c.x as int, c.y as int))
}

/// Whether an unbounded integer fits in an `i32`.
pub open spec fn fits_i32(v: int) -> bool {
    i32::MIN <= v <= i32::MAX
}

/// Rotation of every non-anchor cell by 90 degrees counter-clockwise about
/// the anchor `s[0]`: the cell at anchor-relative position `(rx, ry)` moves
/// to relative position `(-ry, rx)`.
pub open spec fn rotate_math(s: Seq<(int, int)>) -> Seq<(int, int)> {
    Seq::new(
        s.len(),
        |i: int|
            if i == 0 {
                s[0]
            } else {
                (s[0].0 - (s[i].1 - s[0].1), s[0].1 + (s[i].0 - s[0].0))
            },
    )
}

/// Horizontal mirror of every non-anchor cell about the anchor `s[0]`: the
/// relative position `(rx, ry)` moves to `(-rx, ry)`.
pub open spec fn flip_math(s: Seq<(int, int)>) -> Seq<(int, int)> {
    Seq::new(
        s.len(),
        |i: int|
            if i == 0 {
                s[0]
            } else {
                (s[0].0 - (s[i].0 - s[0].0), s[i].1)
            },
    )
}

/// Translation of every cell by `(dx, dy)`.
pub open spec fn translate_math(s: Seq<(int, int)>, dx: int, dy: int) -> Seq<(int, int)> {
    s.map_values(|p: (int, int)| (p.0 + dx, p.1 + dy))
}

/// Manhattan distance between two cells.
pub open spec fn l1_dist(a: (int, int), b: (int, int)) -> int {
    vstd::math::abs(a.0 - b.0) + vstd::math::abs(a.1 - b.1) as int
}

/// Stateless namespace for the tile transforms, mirroring how callers
/// address them.
pub struct TileHelper {}

impl TileHelper {
    /// The vector that carries the tile's anchor onto `origin`.
    #[inline]
    pub fn calc_offset(tile: &Tile, origin: &Coordinate) -> (r: Coordinate)
        requires
            tile@.len() >= 1,
            fits_i32(origin.x - tile@[0].x),
            fits_i32(origin.y - tile@[0].y),
        ensures
            r.x == origin.x - tile@[0].x,
            r.y == origin.y - tile@[0].y,
    {
        Coordinate { x: origin.x - tile[0].x, y: origin.y - tile[0].y }
    }

    /// Moves the whole tile by `offset`, in place.
    #[inline]
    pub fn translate(tile: &mut Tile, offset: &Coordinate)
        requires
            forall|i: int|
                0 <= i < old(tile)@.len() ==> {
                    &&& fits_i32((#[trigger] old(tile)@[i]).x + offset.x)
                    &&& fits_i32(old(tile)@[i].y + offset.y)
                },
        ensures
            final(tile)@.len() == old(tile)@.len(),
            forall|i: int|
                0 <= i < old(tile)@.len() ==> {
                    &&& (#[trigger] final(tile)@[i]).x == old(tile)@[i].x + offset.x
                    &&& final(tile)@[i].y == old(tile)@[i].y + offset.y
                },
            tile_math(final(tile)@) == translate_math(
                tile_math(old(tile)@),
                offset.x as int,
                offset.y as int,
            ),
    {
        let n = tile.len();
        let mut i: usize = 0;
        while i < n
            invariant
                n == old(tile)@.len(),
                i <= n,
                tile@.len() == n,
                forall|k: int|
                    0 <= k < n ==> {
                        &&& fits_i32((#[trigger] old(tile)@[k]).x + offset.x)
                        &&& fits_i32(old(tile)@[k].y + offset.y)
                    },
                forall|k: int|
                    0 <= k < i ==> {
                        &&& (#[trigger] tile@[k]).x == old(tile)@[k].x + offset.x
                        &&& tile@[k].y == old(tile)@[k].y + offset.y
                    },
                forall|k: int| i <= k < n ==> #[trigger] tile@[k] == old(tile)@[k],
            decreases n - i,
        {
            let cell = tile[i];
            tile[i] = Coordinate { x: cell.x + offset.x, y: cell.y + offset.y };
            i += 1;
        }
        proof {
            assert(tile_math(tile@) =~= translate_math(
                tile_math(old(tile)@),
                offset.x as int,
                offset.y as int,
            ));
        }
    }

    /// Rotates every non-anchor cell 90 degrees counter-clockwise about the
    /// anchor `tile[0]`, in place; the anchor itself does not move.
    pub fn rotate(tile: &mut Tile)
        requires
            old(tile)@.len() >= 1,
            forall|i: int|
                0 <= i < old(tile)@.len() ==> {
                    &&& fits_i32((#[trigger] old(tile)@[i]).x - old(tile)@[0].x)
                    &&& fits_i32(old(tile)@[i].y - old(tile)@[0].y)
                    &&& fits_i32(old(tile)@[0].x - (old(tile)@[i].y - old(tile)@[0].y))
                    &&& fits_i32(old(tile)@[0].y + (old(tile)@[i].x - old(tile)@[0].x))
                },
        ensures
            final(tile)@.len() == old(tile)@.len(),
            final(tile)@[0] == old(tile)@[0],
            tile_math(final(tile)@) == rotate_math(tile_math(old(tile)@)),
    {
        let origin = tile[0];
        let n = tile.len();
        let mut i: usize = 1;
        while i < n
            invariant
                n == old(tile)@.len(),
                1 <= i <= n || (i == 1 && n >= 1),
                tile@.len() == n,
                origin == old(tile)@[0],
                tile@[0] == old(tile)@[0],
                forall|k: int|
                    0 <= k < n ==> {
                        &&& fits_i32((#[trigger] old(tile)@[k]).x - old(tile)@[0].x)
                        &&& fits_i32(old(tile)@[k].y - old(tile)@[0].y)
                        &&& fits_i32(old(tile)@[0].x - (old(tile)@[k].y - old(tile)@[0].y))
                        &&& fits_i32(old(tile)@[0].y + (old(tile)@[k].x - old(tile)@[0].x))
                    },
                forall|k: int|
                    1 <= k < i ==> {
                        &&& (#[trigger] tile@[k]).x == old(tile)@[0].x - (old(tile)@[k].y
                            - old(tile)@[0].y)
                        &&& tile@[k].y == old(tile)@[0].y + (old(tile)@[k].x - old(tile)@[0].x)
                    },
                forall|k: int| i <= k < n ==> #[trigger] tile@[k] == old(tile)@[k],
            decreases n - i,
        {
            let cell = tile[i];
            let relative_x = cell.x - origin.x;
            let relative_y = cell.y - origin.y;
            tile[i] = Coordinate { x: origin.x - relative_y, y: origin.y + relative_x };
            i += 1;
        }
        proof {
            assert(tile_math(tile@) =~= rotate_math(tile_math(old(tile)@)));
        }
    }

    /// Mirrors every non-anchor cell horizontally about the anchor
    /// `tile[0]`, in place; the anchor itself does not move.
    pub fn flip(tile: &mut Tile)
        requires
            old(tile)@.len() >= 1,
            forall|i: int|
                0 <= i < old(tile)@.len() ==> {
                    &&& fits_i32((#[trigger] old(tile)@[i]).x - old(tile)@[0].x)
                    &&& fits_i32(old(tile)@[0].x - (old(tile)@[i].x - old(tile)@[0].x))
                },
        ensures
            final(tile)@.len() == old(tile)@.len(),
            final(tile)@[0] == old(tile)@[0],
            tile_math(final(tile)@) == flip_math(tile_math(old(tile)@)),
    {
        let origin = tile[0];
        let n = tile.len();
        let mut i: usize = 1;
        while i < n
            invariant
                n == old(tile)@.len(),
                1 <= i <= n || (i == 1 && n >= 1),
                tile@.len() == n,
                origin == old(tile)@[0],
                tile@[0] == old(tile)@[0],
                forall|k: int|
                    0 <= k < n ==> {
                        &&& fits_i32((#[trigger] old(tile)@[k]).x - old(tile)@[0].x)
                        &&& fits_i32(old(tile)@[0].x - (old(tile)@[k].x - old(tile)@[0].x))
                    },
                forall|k: int|
                    1 <= k < i ==> {
                        &&& (#[trigger] tile@[k]).x == old(tile)@[0].x - (old(tile)@[k].x
                            - old(tile)@[0].x)
                        &&& tile@[k].y == old(tile)@[k].y
                    },
                forall|k: int| i <= k < n ==> #[trigger] tile@[k] == old(tile)@[k],
            decreases n - i,
        {
            let cell = tile[i];
            let relative_x = cell.x - origin.x;
            tile[i] = Coordinate { x: origin.x - relative_x, y: cell.y };
            i += 1;
        }
        proof {
            assert(tile_math(tile@) =~= flip_math(tile_math(old(tile)@)));
        }
    }

    /// Whether the whole tile lies inside the fixed grid, so that every cell
    /// can be used as a grid index.
    #[inline]
    pub fn is_within_board(tile: &Tile) -> (r: bool)
        ensures
            r == tile_in_frame(tile@),
    {
        let n = tile.len();
        let mut i: usize = 0;
        while i < n
            invariant
                i <= n,
                n == tile@.len(),
                forall|k: int| 0 <= k < i ==> coord_in_frame(#[trigger] tile@[k]),
            decreases n - i,
        {
            let coor = tile[i];
            if coor.x < 0 || coor.x >= GRID_SIZE as i32 || coor.y < 0 || coor.y >= GRID_SIZE as i32
            {
                return false;
            }
            i += 1;
        }
        true
    }
}


/// The eight orientations of a base shape, in generation order: the four
/// quarter-turn rotations of the shape, then the four quarter-turn
/// rotations of its horizontal mirror image.
pub open spec fn orientations_math(t: Seq<(int, int)>) -> Seq<Seq<(int, int)>> {
    let r1 = rotate_math(t);
    let r2 = rotate_math(r1);
    let r3 = rotate_math(r2);
    let f0 = flip_math(t);
    let f1 = rotate_math(f0);
    let f2 = rotate_math(f1);
    let f3 = rotate_math(f2);
    seq![t, r1, r2, r3, f0, f1, f2, f3]
}

/// The concrete tile whose cells are the given mathematical cells,
/// truncated into machine coordinates.
pub open spec fn coords_of_math(s: Seq<(int, int)>) -> Seq<Coordinate> {
    s.map_values(|p: (int, int)| Coordinate { x: p.0 as i32, y: p.1 as i32 })
}

/// Reading a tile mathematically and writing it back is the identity.
pub proof fn lemma_coords_of_math_id(s: Seq<Coordinate>)
    ensures
        coords_of_math(tile_math(s)) == s,
{
    assert(coords_of_math(tile_math(s)) =~= s);
}

/// The eight orientations of a base shape, as concrete tiles.
pub open spec fn spec_orientations(t: Seq<Coordinate>) -> Seq<Seq<Coordinate>> {
    orientations_math(tile_math(t)).map_values(|m: Seq<(int, int)>| coords_of_math(m))
}

/// Lifts the mathematical effect of one `rotate` call back to the concrete
/// tile: anchor-relative bounds and distinctness survive a quarter turn.
proof fn lemma_rotate_step(pre: Seq<Coordinate>, post: Seq<Coordinate>)
    requires
        pre.len() >= 1,
        post.len() == pre.len(),
        post[0] == pre[0],
        tile_math(post) == rotate_math(tile_math(pre)),
        tile_rel_bounded(pre),
    ensures
        tile_rel_bounded(post),
        tile_distinct(pre) ==> tile_distinct(post),
        chain_connected(pre) ==> chain_connected(post),
        forall|i: int|
            0 <= i < pre.len() ==> {
                &&& (#[trigger] post[i]).x - post[0].x == -(pre[i].y - pre[0].y)
                &&& post[i].y - post[0].y == pre[i].x - pre[0].x
            },
    {
    assert forall|i: int| 0 <= i < pre.len() implies {
        &&& (#[trigger] post[i]).x - post[0].x == -(pre[i].y - pre[0].y)
        &&& post[i].y - post[0].y == pre[i].x - pre[0].x
    } by {
        assert(tile_math(post)[i] == rotate_math(tile_math(pre))[i]);
        assert(tile_math(post)[i] == (post[i].x as int, post[i].y as int));
        assert(tile_math(pre)[i] == (pre[i].x as int, pre[i].y as int));
    }
    if tile_distinct(pre) {
        assert forall|i: int, j: int| 0 <= i < j < post.len() implies post[i] != post[j] by {
            if post[i] == post[j] {
                assert(pre[i].y == pre[j].y && pre[i].x == pre[j].x);
                assert(pre[i] == pre[j]);
            }
        }
    }
    if chain_connected(pre) {
        assert forall|k: int| 1 <= k < post.len() implies has_earlier_neighbor(post, k) by {
            assert(has_earlier_neighbor(pre, k));
            let j = choose|j: int| 0 <= j < k && adjacent(#[trigger] pre[j], pre[k]);
            // a quarter turn maps the step between the two cells to another
            // unit step
            assert(post[j].x - post[k].x == -(pre[j].y - pre[k].y));
            assert(post[j].y - post[k].y == pre[j].x - pre[k].x);
            assert(adjacent(post[j], post[k]));
        }
    }
}

/// Lifts the mathematical effect of one `flip` call back to the concrete
/// tile, as `lemma_rotate_step` does for rotation.
proof fn lemma_flip_step(pre: Seq<Coordinate>, post: Seq<Coordinate>)
    requires
        pre.len() >= 1,
        post.len() == pre.len(),
        post[0] == pre[0],
        tile_math(post) == flip_math(tile_math(pre)),
        tile_rel_bounded(pre),
    ensures
        tile_rel_bounded(post),
        tile_distinct(pre) ==> tile_distinct(post),
        chain_connected(pre) ==> chain_connected(post),
        forall|i: int|
            0 <= i < pre.len() ==> {
                &&& (#[trigger] post[i]).x - post[0].x == -(pre[i].x - pre[0].x)
                &&& post[i].y == pre[i].y
            },
    {
    assert forall|i: int| 0 <= i < pre.len() implies {
        &&& (#[trigger] post[i]).x - post[0].x == -(pre[i].x - pre[0].x)
        &&& post[i].y == pre[i].y
    } by {
        assert(tile_math(post)[i] == flip_math(tile_math(pre))[i]);
        assert(tile_math(post)[i] == (post[i].x as int, post[i].y as int));
        assert(tile_math(pre)[i] == (pre[i].x as int, pre[i].y as int));
    }
    if tile_distinct(pre) {
        assert forall|i: int, j: int| 0 <= i < j < post.len() implies post[i] != post[j] by {
            if post[i] == post[j] {
                assert(pre[i].x == pre[j].x && pre[i].y == pre[j].y);
                assert(pre[i] == pre[j]);
            }
        }
    }
    if chain_connected(pre) {
        assert forall|k: int| 1 <= k < post.len() implies has_earlier_neighbor(post, k) by {
            assert(has_earlier_neighbor(pre, k));
            let j = choose|j: int| 0 <= j < k && adjacent(#[trigger] pre[j], pre[k]);
            // the mirror maps the step between the two cells to another
            // unit step
            assert(post[j].x - post[k].x == -(pre[j].x - pre[k].x));
            assert(post[j].y - post[k].y == pre[j].y - pre[k].y);
            assert(adjacent(post[j], post[k]));
        }
    }
}

/// An anchored, relative-bounded tile satisfies the overflow preconditions
/// of `rotate` and `flip`.
proof fn lemma_transform_fits(t: Seq<Coordinate>)
    requires
        t.len() >= 1,
        tile_rel_bounded(t),
        coord_in_frame(t[0]),
    ensures
        forall|i: int|
            0 <= i < t.len() ==> {
                &&& fits_i32((#[trigger] t[i]).x - t[0].x)
                &&& fits_i32(t[i].y - t[0].y)
                &&& fits_i32(t[0].x - (t[i].y - t[0].y))
                &&& fits_i32(t[0].y + (t[i].x - t[0].x))
                &&& fits_i32(t[0].x - (t[i].x - t[0].x))
            },
{
}

/// Generates the eight orientations of a base shape: four quarter-turn
/// rotations, a horizontal flip, and four more quarter-turn rotations of
/// the flipped shape, each captured before the next transform. All eight
/// share the base shape's anchor and cell count; distinct cells stay
/// distinct. Duplicate orientations are allowed for symmetric shapes.
pub fn generate_orientations(tile: &Tile) -> (r: Vec<Tile>)
    requires
        tile@.len() >= 1,
        tile_in_frame(tile@),
    ensures
        r@.len() == 8,
        forall|k: int| 0 <= k < 8 ==> (#[trigger] r@[k])@.len() == tile@.len(),
        forall|k: int| 0 <= k < 8 ==> (#[trigger] r@[k])@[0] == tile@[0],
        forall|k: int| 0 <= k < 8 ==> tile_rel_bounded((#[trigger] r@[k])@),
        forall|k: int|
            0 <= k < 8 ==> tile_math((#[trigger] r@[k])@) == orientations_math(tile_math(tile@))[k],
        r@[0]@ == tile@,
        r.deep_view() == spec_orientations(tile@),
        tile_distinct(tile@) ==> forall|k: int| 0 <= k < 8 ==> tile_distinct((#[trigger] r@[k])@),
        chain_connected(tile@) ==> forall|k: int|
            0 <= k < 8 ==> chain_connected((#[trigger] r@[k])@),
{
    let ghost base = tile@;
    proof {
        assert(tile_rel_bounded(base));
        assert(coord_in_frame(base[0]));
    }
    let mut out: Vec<Tile> = Vec::new();
    let mut current: Tile = copy_tile(tile);
    let ghost mut shapes: Seq<Seq<Coordinate>> = Seq::empty();

    // four rotations of the base shape
    out.push(copy_tile(&current));
    proof {
        shapes = shapes.push(current@);
        lemma_transform_fits(current@);
    }
    let ghost s0 = current@;
    TileHelper::rotate(&mut current);
    proof {
        lemma_rotate_step(s0, current@);
        assert(coord_in_frame(current@[0]));
    }
    out.push(copy_tile(&current));
    proof {
        shapes = shapes.push(current@);
        lemma_transform_fits(current@);
    }
    let ghost s1 = current@;
    TileHelper::rotate(&mut current);
    proof {
        lemma_rotate_step(s1, current@);
    }
    out.push(copy_tile(&current));
    proof {
        shapes = shapes.push(current@);
        lemma_transform_fits(current@);
    }
    let ghost s2 = current@;
    TileHelper::rotate(&mut current);
    proof {
        lemma_rotate_step(s2, current@);
    }
    out.push(copy_tile(&current));
    proof {
        shapes = shapes.push(current@);
        lemma_transform_fits(current@);
    }

    // flip the shape (after a fourth rotation this is the mirror of the
    // base), then four rotations of the flipped shape
    let ghost s3 = current@;
    TileHelper::rotate(&mut current);
    proof {
        lemma_rotate_step(s3, current@);
        lemma_transform_fits(current@);
        lemma_rotate_four_identity(tile_math(base));
        assert(tile_math(current@) == tile_math(base));
    }
    let ghost s4 = current@;
    TileHelper::flip(&mut current);
    proof {
        lemma_flip_step(s4, current@);
        assert(tile_math(current@) == flip_math(tile_math(base)));
        lemma_transform_fits(current@);
    }
    out.push(copy_tile(&current));
    proof {
        shapes = shapes.push(current@);
    }
    let ghost s5 = current@;
    TileHelper::rotate(&mut current);
    proof {
        lemma_rotate_step(s5, current@);
        lemma_transform_fits(current@);
    }
    out.push(copy_tile(&current));
    proof {
        shapes = shapes.push(current@);
    }
    let ghost s6 = current@;
    TileHelper::rotate(&mut current);
    proof {
        lemma_rotate_step(s6, current@);
        lemma_transform_fits(current@);
    }
    out.push(copy_tile(&current));
    proof {
        shapes = shapes.push(current@);
    }
    let ghost s7 = current@;
    TileHelper::rotate(&mut current);
    proof {
        lemma_rotate_step(s7, current@);
    }
    out.push(copy_tile(&current));
    proof {
        shapes = shapes.push(current@);
        assert(out@.len() == 8);
        assert forall|k: int| 0 <= k < 8 implies (#[trigger] out@[k])@ == shapes[k] by {}
        assert(tile_math(out@[1]@) == orientations_math(tile_math(base))[1]);
        assert(tile_math(out@[2]@) == orientations_math(tile_math(base))[2]);
        assert(tile_math(out@[3]@) == orientations_math(tile_math(base))[3]);
        assert(tile_math(out@[4]@) == orientations_math(tile_math(base))[4]);
        assert(tile_math(out@[5]@) == orientations_math(tile_math(base))[5]);
        assert(tile_math(out@[6]@) == orientations_math(tile_math(base))[6]);
        assert(tile_math(out@[7]@) == orientations_math(tile_math(base))[7]);
        assert forall|k: int| 0 <= k < 8 implies out.deep_view()[k] == spec_orientations(base)[k] by {
            assert(out.deep_view()[k] == out@[k]@);
            assert(tile_math(out@[k]@) == orientations_math(tile_math(base))[k]);
            lemma_coords_of_math_id(out@[k]@);
            assert(spec_orientations(base)[k] == coords_of_math(orientations_math(tile_math(base))[k]));
        }
        assert(out.deep_view() =~= spec_orientations(base));
    }
    out
}

/// Four quarter-turns about the anchor restore a shape exactly: rotation is
/// a closure operation on tiles.
pub proof fn lemma_rotate_four_identity(s: Seq<(int, int)>)
    requires
        s.len() >= 1,
    ensures
        rotate_math(rotate_math(rotate_math(rotate_math(s)))) == s,
{
    assert(rotate_math(rotate_math(rotate_math(rotate_math(s)))) =~= s);
}

/// Two horizontal flips about the anchor restore a shape exactly.
pub proof fn lemma_flip_twice_identity(s: Seq<(int, int)>)
    requires
        s.len() >= 1,
    ensures
        flip_math(flip_math(s)) == s,
{
    assert(flip_math(flip_math(s)) =~= s);
}

/// Rotation is an isometry: it keeps the cell count and every pairwise
/// Manhattan distance, so in particular it keeps cells distinct and keeps
/// relative adjacency.
pub proof fn lemma_rotate_preserves_shape(s: Seq<(int, int)>)
    requires
        s.len() >= 1,
    ensures
        rotate_math(s).len() == s.len(),
        forall|i: int, j: int|
            0 <= i < s.len() && 0 <= j < s.len() ==> #[trigger] l1_dist(
                rotate_math(s)[i],
                rotate_math(s)[j],
            ) == l1_dist(s[i], s[j]),
{
}

/// Flipping is an isometry in the same sense as rotation.
pub proof fn lemma_flip_preserves_shape(s: Seq<(int, int)>)
    requires
        s.len() >= 1,
    ensures
        flip_math(s).len() == s.len(),
        forall|i: int, j: int|
            0 <= i < s.len() && 0 <= j < s.len() ==> #[trigger] l1_dist(
                flip_math(s)[i],
                flip_math(s)[j],
            ) == l1_dist(s[i], s[j]),
{
}

} // verus!
