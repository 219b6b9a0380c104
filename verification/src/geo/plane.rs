//! The map on the plane, in whole numbers.
//!
//! Across the map a point is measured in steps of `1 / (2 FINE)` of a
//! tile's width, down the map in steps of `1 / (4 FINE)` of a tile's height.
//! On this grid the centres and corners of all tiles, and the lines between
//! them, have whole coordinates and whole slopes, and the square of a
//! distance is `3 dx^2 + dy^2` twelfths of a fine step squared.

use vstd::prelude::*;
use vstd::arithmetic::div_mod::{lemma_fundamental_div_mod, lemma_mod_bound};
use crate::hex::{half, Hex};
use crate::hexmap::{index_coords, HexMap, MAX_AREA};

verus! {

/// Number of fine steps in half a tile's width, and in a quarter of a
/// tile's height.
pub const FINE: i64 = 1_000;

/// Number of fine steps down the map in one unit of length: `4 FINE`
/// divided by the ratio of a tile's height to its width, rounded.
pub const RISE: i64 = 3_464;

/// Farthest that a point may lie from the origin, along either axis.
pub const FAR: i64 = 0x100_0000_0000;

/// A point of the plane.
#[derive(Debug, Clone, Copy, PartialEq, Eq, Structural)]
pub struct Point {
    pub x: i64,
    pub y: i64,
}

/// Centre of the tile in column `col` of row `row`.
pub open spec fn centre_at(col: int, row: int) -> (int, int) {
    (FINE * (2 * col + 1 + row % 2), FINE * (3 * row + 2))
}

/// Centre of the tile at index `i` of a map `size_x` wide.
pub open spec fn centre(i: int, size_x: int) -> (int, int) {
    centre_at(i % size_x, i / size_x)
}

/// Extent of the map across, in fine steps.
pub open spec fn spec_width(map: &HexMap) -> int {
    FINE * (2 * map.size_x + 1)
}

/// Extent of the map down, in fine steps.
pub open spec fn spec_height(map: &HexMap) -> int {
    FINE * (3 * map.size_y + 1)
}

/// Twelve times the square of the distance between two points, in fine
/// steps.
pub open spec fn gap(ax: int, ay: int, bx: int, by: int) -> int {
    3 * (ax - bx) * (ax - bx) + (ay - by) * (ay - by)
}

/// How far the point `(px, py)` is from the centre of tile `i`.
pub open spec fn gap_to(px: int, py: int, i: int, size_x: int) -> int {
    gap(px, py, centre(i, size_x).0, centre(i, size_x).1)
}

/// Whether tile `t` is the nearest to the point `(px, py)`: no tile's centre
/// is nearer, and of those as near none has a lower index.
pub open spec fn is_closest(map: &HexMap, px: int, py: int, t: int) -> bool {
    &&& 0 <= t < map.area()
    &&& forall|u: int|
        0 <= u < map.area() ==> gap_to(px, py, t, map.size_x as int) < #[trigger] gap_to(
            px,
            py,
            u,
            map.size_x as int,
        ) || (gap_to(px, py, t, map.size_x as int) == gap_to(px, py, u, map.size_x as int) && t
            <= u)
}

/// The tile nearest to the point `(px, py)`.
pub open spec fn nearest(map: &HexMap, px: int, py: int) -> int {
    choose|t: int| is_closest(map, px, py, t)
}

/// Only one tile is the nearest to a point.
pub proof fn lemma_closest_unique(map: &HexMap, px: int, py: int, t: int)
    requires
        is_closest(map, px, py, t),
    ensures
        nearest(map, px, py) == t,
{
    let n = nearest(map, px, py);
    assert(is_closest(map, px, py, n));
    let gt = gap_to(px, py, t, map.size_x as int);
    let gn = gap_to(px, py, n, map.size_x as int);
    assert(gt < gn || (gt == gn && t <= n));
    assert(gn < gt || (gn == gt && n <= t));
}

/// Whether the point lies within `FAR` of the origin along both axes.
pub open spec fn near(p: Point) -> bool {
    -FAR <= p.x <= FAR && -FAR <= p.y <= FAR
}

/// Extent of the map across, in fine steps.
pub fn width(map: &HexMap) -> (w: i64)
    requires
        map.sized(),
    ensures
        w == spec_width(map),
        0 < w <= FAR,
{
    proof {
        lemma_sizes(map);
    }
    FINE * (2 * (map.size_x as i64) + 1)
}

/// Extent of the map down, in fine steps.
pub fn height(map: &HexMap) -> (h: i64)
    requires
        map.sized(),
    ensures
        h == spec_height(map),
        0 < h <= FAR,
{
    proof {
        lemma_sizes(map);
    }
    FINE * (3 * (map.size_y as i64) + 1)
}

/// Neither side of a map is longer than its area.
pub proof fn lemma_sizes(map: &HexMap)
    requires
        map.sized(),
    ensures
        map.size_x <= map.area() <= MAX_AREA,
        map.size_y <= map.area(),
{
    assert(map.size_x <= map.area() && map.size_y <= map.area()) by (nonlinear_arith)
        requires
            1 <= map.size_x,
            1 <= map.size_y,
            map.area() == map.size_x * map.size_y,
    ;
}

/// Centre of the tile at the coordinates `(x, y)`.
pub open spec fn centre_of(x: int, y: int) -> (int, int) {
    (FINE * (2 * x + 2 * half(y) + 1 + (if y % 2 == 0 {
        0int
    } else {
        1int
    })), FINE * (3 * y + 2))
}

/// The centre of a tile by its coordinates is its centre by its index.
pub proof fn lemma_centre_of_tile(i: int, size_x: int, size_y: int)
    requires
        1 <= size_x,
        0 <= i < size_x * size_y,
    ensures
        centre_of(index_coords(i, size_x).0, index_coords(i, size_x).1) == centre(i, size_x),
{
    crate::hexmap::lemma_index_round_trip(i, size_x, size_y);
    lemma_fundamental_div_mod(i, size_x);
    vstd::arithmetic::mul::lemma_mul_is_commutative(size_x, i / size_x);
}

impl Hex {
    /// Centre of the tile on the plane.
    pub fn center(&self) -> (c: Point)
        ensures
            (c.x as int, c.y as int) == centre_of(self.x as int, self.y as int),
    {
        let odd: i64 = if self.y % 2 == 0 {
            0
        } else {
            1
        };
        Point {
            x: FINE * (2 * (self.x as i64) + 2 * Hex::half_of(self.y) + 1 + odd),
            y: FINE * (3 * (self.y as i64) + 2),
        }
    }
}

impl HexMap {
    /// Index of the tile whose centre is nearest to the point `(x, y)`.
    pub fn get_closest_hex_index(&self, x: i64, y: i64) -> (index: usize)
        requires
            self.sized(),
            near(Point { x, y }),
        ensures
            is_closest(self, x as int, y as int, index as int),
            index == nearest(self, x as int, y as int),
    {
        closest_tile(self, Point { x, y })
    }

    /// The same as `get_closest_hex_index`: the nearest tile is sought on
    /// the map as it lies, not across its side edges.
    pub fn get_closest_hex_index_wrapped(&self, x: i64, y: i64) -> (index: usize)
        requires
            self.sized(),
            near(Point { x, y }),
        ensures
            is_closest(self, x as int, y as int, index as int),
            index == nearest(self, x as int, y as int),
    {
        self.get_closest_hex_index(x, y)
    }
}

/// The centre of a tile lies across the map by its column and down the map
/// by its row.
pub proof fn lemma_centre(i: int, size_x: int)
    ensures
        centre(i, size_x) == (
            FINE * (2 * (i % size_x) + 1 + (i / size_x) % 2),
            FINE * (3 * (i / size_x) + 2),
        ),
{
}

/// A number farther from zero has the greater square.
proof fn lemma_square_grows(a: int, b: int)
    requires
        -b <= a <= b,
    ensures
        a * a <= b * b,
        (-b < a < b) ==> a * a < b * b,
{
    assert(a * a <= b * b) by (nonlinear_arith)
        requires
            -b <= a <= b,
    ;
    if -b < a < b {
        assert(a * a < b * b) by (nonlinear_arith)
            requires
                -b < a < b,
        ;
    }
}

/// The row from which the search for the nearest tile sets out: the last
/// row whose centres lie at or above the point, or the first row, or the
/// last.
pub open spec fn base_row(py: int, size_y: int) -> int {
    let f = (py - 2 * FINE) / (3 * FINE);
    if f < 0 {
        0
    } else if f > size_y - 1 {
        size_y - 1
    } else {
        f
    }
}

/// The column of row `row` from which the search sets out: the last column
/// whose centre lies at or left of the point, or the first column, or the
/// last.
pub open spec fn base_col(px: int, row: int, size_x: int) -> int {
    let f = (px - FINE * (1 + row % 2)) / (2 * FINE);
    if f < 0 {
        0
    } else if f > size_x - 1 {
        size_x - 1
    } else {
        f
    }
}

/// Whether the tile in column `col` of row `row` is one of those that the
/// search looks at: its row is the base row, the row above it or one of the
/// two rows below, its column the base column of its row or the next.
pub open spec fn is_candidate(px: int, py: int, size_x: int, size_y: int, col: int, row: int) -> bool {
    &&& 0 <= row < size_y
    &&& 0 <= col < size_x
    &&& base_row(py, size_y) - 1 <= row <= base_row(py, size_y) + 2
    &&& base_col(px, row, size_x) <= col <= base_col(px, row, size_x) + 1
}

/// The row among those the search looks at that stands for row `row`: the
/// row itself if it is one of them, else the one of like parity on its side
/// of the point.
pub open spec fn standing_row(py: int, size_y: int, row: int) -> int {
    let b = base_row(py, size_y);
    if row < b - 1 {
        if (b - row) % 2 == 0 {
            b
        } else {
            b - 1
        }
    } else if row > b + 2 {
        if (row - b) % 2 == 0 {
            b + 2
        } else {
            b + 1
        }
    } else {
        row
    }
}

/// The column that stands for column `col` in a row: the column itself if
/// the search looks at it, else the one on its side of the point.
pub open spec fn standing_col(px: int, row: int, size_x: int, col: int) -> int {
    let b = base_col(px, row, size_x);
    if col < b {
        b
    } else if col > b + 1 {
        b + 1
    } else {
        col
    }
}

/// Every tile has one among those that the search looks at which is as near
/// to the point, and nearer unless it is that tile itself.
pub proof fn lemma_candidate_stands(px: int, py: int, size_x: int, size_y: int, col: int, row: int)
    requires
        1 <= size_x,
        1 <= size_y,
        0 <= col < size_x,
        0 <= row < size_y,
    ensures
        ({
            let r = standing_row(py, size_y, row);
            let c = standing_col(px, r, size_x, col);
            &&& is_candidate(px, py, size_x, size_y, c, r)
            &&& gap(px, py, centre_at(c, r).0, centre_at(c, r).1) <= gap(
                px,
                py,
                centre_at(col, row).0,
                centre_at(col, row).1,
            )
            &&& (c != col || r != row) ==> gap(px, py, centre_at(c, r).0, centre_at(c, r).1) < gap(
                px,
                py,
                centre_at(col, row).0,
                centre_at(col, row).1,
            )
        }),
{
    let b = base_row(py, size_y);
    let f = (py - 2 * FINE) / (3 * FINE);
    lemma_fundamental_div_mod(py - 2 * FINE, 3 * FINE);
    lemma_mod_bound(py - 2 * FINE, 3 * FINE);
    assert(py - 2000 == 3000 * f + (py - 2000) % 3000);
    assert(0 <= (py - 2000) % 3000 < 3000);
    let r = standing_row(py, size_y, row);
    assert(r % 2 == row % 2);
    assert(0 <= r < size_y);
    // down the map: the standing row is no farther from the point
    let dy_far = FINE * (3 * row + 2) - py;
    let dy_near = FINE * (3 * r + 2) - py;
    if row < b - 1 {
        assert(FINE * (3 * b + 2) <= py);
        assert(dy_far < dy_near <= 0);
        lemma_square_grows(dy_near, -dy_far);
    } else if row > b + 2 {
        assert(py < FINE * (3 * (b + 1) + 2));
        assert(0 < dy_near < dy_far);
        lemma_square_grows(dy_near, dy_far);
    }
    // across the map: the standing column is no farther from the point
    let cb = base_col(px, r, size_x);
    let g = (px - FINE * (1 + r % 2)) / (2 * FINE);
    lemma_fundamental_div_mod(px - FINE * (1 + r % 2), 2 * FINE);
    lemma_mod_bound(px - FINE * (1 + r % 2), 2 * FINE);
    let shift = 1000 * (1 + r % 2);
    assert(px - shift == 2000 * g + (px - shift) % 2000);
    assert(0 <= (px - shift) % 2000 < 2000);
    let c = standing_col(px, r, size_x, col);
    let dx_far = FINE * (2 * col + 1 + r % 2) - px;
    let dx_near = FINE * (2 * c + 1 + r % 2) - px;
    if col < cb {
        assert(FINE * (2 * cb + 1 + r % 2) <= px);
        assert(dx_far < dx_near <= 0);
        lemma_square_grows(dx_near, -dx_far);
    } else if col > cb + 1 {
        assert(px < FINE * (2 * (cb + 1) + 1 + r % 2));
        assert(0 < dx_near < dx_far);
        lemma_square_grows(dx_near, dx_far);
    }
    assert(3 * dx_near * dx_near == 3 * (dx_near * dx_near)) by (nonlinear_arith);
    assert(3 * dx_far * dx_far == 3 * (dx_far * dx_far)) by (nonlinear_arith);
    assert((px - FINE * (2 * c + 1 + r % 2)) * (px - FINE * (2 * c + 1 + r % 2)) == dx_near
        * dx_near) by (nonlinear_arith)
        requires
            dx_near == FINE * (2 * c + 1 + r % 2) - px,
    ;
    assert((px - FINE * (2 * col + 1 + r % 2)) * (px - FINE * (2 * col + 1 + r % 2)) == dx_far
        * dx_far) by (nonlinear_arith)
        requires
            dx_far == FINE * (2 * col + 1 + r % 2) - px,
    ;
    assert((py - FINE * (3 * r + 2)) * (py - FINE * (3 * r + 2)) == dy_near * dy_near)
        by (nonlinear_arith)
        requires
            dy_near == FINE * (3 * r + 2) - py,
    ;
    assert((py - FINE * (3 * row + 2)) * (py - FINE * (3 * row + 2)) == dy_far * dy_far)
        by (nonlinear_arith)
        requires
            dy_far == FINE * (3 * row + 2) - py,
    ;
    assert(3 * (px - FINE * (2 * c + 1 + r % 2)) * (px - FINE * (2 * c + 1 + r % 2)) == 3 * ((px
        - FINE * (2 * c + 1 + r % 2)) * (px - FINE * (2 * c + 1 + r % 2)))) by (nonlinear_arith);
    assert(3 * (px - FINE * (2 * col + 1 + r % 2)) * (px - FINE * (2 * col + 1 + r % 2)) == 3 * (
    (px - FINE * (2 * col + 1 + r % 2)) * (px - FINE * (2 * col + 1 + r % 2))))
        by (nonlinear_arith);
}

/// The quotient of `n` by a positive `d`, rounded down.
pub fn floor_div(n: i64, d: i64) -> (q: i64)
    requires
        0 < d <= 0x4000_0000_0000_0000,
        -0x4000_0000_0000_0000 <= n <= 0x4000_0000_0000_0000,
    ensures
        q == n as int / d as int,
{
    proof {
        lemma_fundamental_div_mod(n as int, d as int);
        lemma_mod_bound(n as int, d as int);
    }
    if n >= 0 {
        n / d
    } else {
        let m = -n;
        let up = (m + (d - 1)) / d;
        proof {
            // -up is the quotient rounded down
            let q = -(up as int);
            let r = n as int - q * d;
            lemma_fundamental_div_mod(m + (d - 1), d as int);
            lemma_mod_bound(m + (d - 1), d as int);
            assert(m + (d - 1) == d * up + (m + (d - 1)) % (d as int));
            assert(q * d == -(d * up)) by (nonlinear_arith)
                requires
                    q == -(up as int),
            ;
            assert(0 <= r < d);
            assert(n as int == q * d + r);
            vstd::arithmetic::div_mod::lemma_fundamental_div_mod_converse(
                n as int,
                d as int,
                q,
                r,
            );
        }
        -up
    }
}

proof fn lemma_tile_place(col: int, row: int, size_x: int)
    requires
        0 <= col < size_x,
        0 <= row,
    ensures
        (row * size_x + col) / size_x == row,
        (row * size_x + col) % size_x == col,
        centre(row * size_x + col, size_x) == centre_at(col, row),
        0 <= row * size_x,
{
    vstd::arithmetic::div_mod::lemma_fundamental_div_mod_converse(
        row * size_x + col,
        size_x,
        row,
        col,
    );
    assert(0 <= row * size_x) by (nonlinear_arith)
        requires
            0 <= row,
            0 <= size_x,
    ;
}

/// Whether the tile `best`, at the distance `least` from the point, is as
/// near as the tile in column `col` of row `row`, and earlier if no nearer.
spec fn beats(px: int, py: int, size_x: int, best: int, least: int, col: int, row: int) -> bool {
    least < gap(px, py, centre_at(col, row).0, centre_at(col, row).1) || (least == gap(
        px,
        py,
        centre_at(col, row).0,
        centre_at(col, row).1,
    ) && best <= row * size_x + col)
}

/// Twelve times the square of the distance from the point to the centre of
/// the tile in column `col` of row `row`.
fn gap_from(p: Point, col: i64, row: i64) -> (g: i128)
    requires
        near(p),
        0 <= col <= MAX_AREA,
        0 <= row <= MAX_AREA,
    ensures
        g == gap(p.x as int, p.y as int, centre_at(col as int, row as int).0, centre_at(
            col as int,
            row as int,
        ).1),
        g >= 0,
{
    let cx: i128 = (FINE * (2 * col + 1 + row % 2)) as i128;
    let cy: i128 = (FINE * (3 * row + 2)) as i128;
    let dx: i128 = p.x as i128 - cx;
    let dy: i128 = p.y as i128 - cy;
    assert(dx * dx <= 0x200_0000_0000 * 0x200_0000_0000 && dx * dx >= 0) by (nonlinear_arith)
        requires
            -0x200_0000_0000 <= dx <= 0x200_0000_0000,
    ;
    assert(dy * dy <= 0x200_0000_0000 * 0x200_0000_0000 && dy * dy >= 0) by (nonlinear_arith)
        requires
            -0x200_0000_0000 <= dy <= 0x200_0000_0000,
    ;
    assert(3 * dx * dx == 3 * (dx * dx)) by (nonlinear_arith);
    3 * (dx * dx) + dy * dy
}

/// The tile nearest to the point: no tile's centre is nearer, and of those
/// as near it has the lowest index.
pub fn closest_tile(map: &HexMap, p: Point) -> (t: usize)
    requires
        map.sized(),
        near(p),
    ensures
        is_closest(map, p.x as int, p.y as int, t as int),
        t == nearest(map, p.x as int, p.y as int),
        t < map.area(),
{
    proof {
        lemma_sizes(map);
    }
    let size_x = map.size_x as i64;
    let size_y = map.size_y as i64;
    let ghost px = p.x as int;
    let ghost py = p.y as int;
    let f = floor_div(p.y - 2 * FINE, 3 * FINE);
    let base: i64 = if f < 0 {
        0
    } else if f > size_y - 1 {
        size_y - 1
    } else {
        f
    };
    let first: i64 = if base >= 1 {
        base - 1
    } else {
        0
    };
    let last: i64 = if base + 2 <= size_y - 1 {
        base + 2
    } else {
        size_y - 1
    };
    let mut best: usize = 0;
    let mut least: i128 = 0;
    let mut any = false;
    let mut row = first;
    while row <= last
        invariant
            map.sized(),
            near(p),
            px == p.x,
            py == p.y,
            size_x == map.size_x,
            size_y == map.size_y,
            size_x <= MAX_AREA,
            size_y <= MAX_AREA,
            base == base_row(py, size_y as int),
            0 <= first <= base <= last < size_y,
            first >= base - 1,
            last <= base + 2,
            first == base - 1 || first == 0,
            last == base + 2 || last == size_y - 1,
            first <= row <= last + 1,
            row > first ==> any,
            any ==> 0 <= best < map.area() && least == gap_to(px, py, best as int, size_x as int),
            any ==> best < row * size_x,
            forall|c: int, r: int|
                first <= r < row && #[trigger] is_candidate(px, py, size_x as int, size_y as int, c, r)
                    ==> beats(px, py, size_x as int, best as int, least as int, c, r),
        decreases last + 1 - row,
    {
        let g = floor_div(p.x - FINE * (1 + row % 2), 2 * FINE);
        let start: i64 = if g < 0 {
            0
        } else if g > size_x - 1 {
            size_x - 1
        } else {
            g
        };
        let end: i64 = if start + 1 <= size_x - 1 {
            start + 1
        } else {
            size_x - 1
        };
        let mut col = start;
        while col <= end
            invariant
                map.sized(),
                near(p),
                px == p.x,
                py == p.y,
                size_x == map.size_x,
                size_y == map.size_y,
                size_x <= MAX_AREA,
                size_y <= MAX_AREA,
                base == base_row(py, size_y as int),
                0 <= first <= row <= last < size_y,
                start == base_col(px, row as int, size_x as int),
                0 <= start <= end < size_x,
                end == start + 1 || end == size_x - 1,
                end <= start + 1,
                start <= col <= end + 1,
                (row > first || col > start) ==> any,
                any ==> best < row * size_x + col,
                any ==> 0 <= best < map.area() && least == gap_to(
                    px,
                    py,
                    best as int,
                    size_x as int,
                ),
                forall|c: int, r: int|
                    first <= r < row && #[trigger] is_candidate(
                        px,
                        py,
                        size_x as int,
                        size_y as int,
                        c,
                        r,
                    ) ==> beats(px, py, size_x as int, best as int, least as int, c, r),
                forall|c: int|
                    start <= c < col ==> #[trigger] beats(
                        px,
                        py,
                        size_x as int,
                        best as int,
                        least as int,
                        c,
                        row as int,
                    ),
            decreases end + 1 - col,
        {
            let here = gap_from(p, col, row);
            proof {
                lemma_tile_place(col as int, row as int, size_x as int);
                assert(row * size_x + col < size_x * size_y) by (nonlinear_arith)
                    requires
                        0 <= col < size_x,
                        0 <= row < size_y,
                ;
            }
            let index = (row * size_x + col) as usize;
            if !any || here < least {
                proof {
                    // the tiles looked at so far are farther, or as far and earlier
                    assert forall|c: int, r: int|
                        first <= r < row && #[trigger] is_candidate(
                            px,
                            py,
                            size_x as int,
                            size_y as int,
                            c,
                            r,
                        ) implies beats(px, py, size_x as int, index as int, here as int, c, r) by {
                        assert(beats(px, py, size_x as int, best as int, least as int, c, r));
                    }
                    assert forall|c: int| start <= c < col + 1 implies #[trigger] beats(
                        px,
                        py,
                        size_x as int,
                        index as int,
                        here as int,
                        c,
                        row as int,
                    ) by {
                        if c < col {
                            assert(beats(
                                px,
                                py,
                                size_x as int,
                                best as int,
                                least as int,
                                c,
                                row as int,
                            ));
                        }
                    }
                }
                best = index;
                least = here;
                any = true;
            }
            col += 1;
        }
        proof {
            assert(row * size_x + size_x == (row + 1) * size_x) by (nonlinear_arith);
            assert forall|c: int, r: int|
                first <= r < row + 1 && #[trigger] is_candidate(
                    px,
                    py,
                    size_x as int,
                    size_y as int,
                    c,
                    r,
                ) implies beats(px, py, size_x as int, best as int, least as int, c, r) by {
                if r == row {
                    assert(beats(px, py, size_x as int, best as int, least as int, c, row as int));
                }
            }
        }
        row += 1;
    }
    proof {
        assert forall|u: int| 0 <= u < map.area() implies gap_to(
            px,
            py,
            best as int,
            size_x as int,
        ) < #[trigger] gap_to(px, py, u, size_x as int) || (gap_to(
            px,
            py,
            best as int,
            size_x as int,
        ) == gap_to(px, py, u, size_x as int) && best <= u) by {
            let col = u % (size_x as int);
            let line = u / (size_x as int);
            crate::hexmap::lemma_index_round_trip(u, size_x as int, size_y as int);
            lemma_fundamental_div_mod(u, size_x as int);
            lemma_mod_bound(u, size_x as int);
            vstd::arithmetic::mul::lemma_mul_is_commutative(size_x as int, line);
            lemma_candidate_stands(px, py, size_x as int, size_y as int, col, line);
            let r = standing_row(py, size_y as int, line);
            let c = standing_col(px, r, size_x as int, col);
            assert(is_candidate(px, py, size_x as int, size_y as int, c, r));
            assert(beats(px, py, size_x as int, best as int, least as int, c, r));
        }
        lemma_closest_unique(map, px, py, best as int);
    }
    best
}

} // verus!
