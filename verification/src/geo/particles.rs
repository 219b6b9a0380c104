//! Particles adrift on the plane: where they start, how a step moves them,
//! how they come back in at the other side of the map, and which of them
//! lie beyond its jagged upper and lower edge.

use vstd::prelude::*;
use crate::geo::cost::UNIT;
use crate::geo::heights::quotient;
use crate::geo::plane::{lemma_sizes, near, Point, FAR, FINE, RISE};
use crate::hexmap::{HexMap, MAX_AREA};

verus! {

/// Number of particles above the first row and below the last, counted in
/// rows of particles.
pub const PADDING: i64 = 40;

/// What a jitter of one counts.
pub const JITTER_UNIT: u32 = 1_000;

/// The least jitter: nine tenths.
pub const JITTER_LOW: u32 = 900;

/// The limit of the jitter: eleven tenths.
pub const JITTER_HIGH: u32 = 1_100;

/// The rest that `a` leaves when divided by a positive `d` with the
/// quotient rounded toward zero; it has the sign of `a`.
pub open spec fn rest(a: int, d: int) -> int {
    a - d * quotient(a, d)
}

/// A coordinate kept within `FAR` of the origin.
pub open spec fn kept(v: int) -> int {
    if v < -FAR {
        -FAR as int
    } else if v > FAR {
        FAR as int
    } else {
        v
    }
}

/// Where a particle at `(x, y)` that has left the map sideways comes back
/// in. The side edges of the map are jagged, so the limit depends on the
/// height within the pair of rows: on the slanted parts it moves with the
/// height, on the upright parts it stands at the edge of the even rows or
/// half a tile further, at the edge of the odd rows.
pub open spec fn wrapped_x(x: int, y: int, size_x: int) -> int {
    let level = rest(y, 6 * FINE);
    let across = 2 * FINE * size_x;
    if level <= FINE {
        if x + level < FINE {
            x + across
        } else if x + level > across + FINE {
            x - across
        } else {
            x
        }
    } else if level <= 3 * FINE {
        if x < 0 {
            x + across
        } else if x > across {
            x - across
        } else {
            x
        }
    } else if level <= 4 * FINE {
        if x + 3 * FINE < level {
            x + across
        } else if x - across + 3 * FINE > level {
            x - across
        } else {
            x
        }
    } else {
        if x < FINE {
            x + across
        } else if x > across + FINE {
            x - across
        } else {
            x
        }
    }
}

/// Whether a particle at `(x, y)` lies above the jagged upper edge of a map
/// of `size_y` rows or below its lower edge. The particle is judged by its
/// place within the tile's width: left or right of the middle it is held
/// to the slanted side of the edge tile on that side.
pub open spec fn is_off_map(x: int, y: int, size_y: int) -> bool {
    let part = rest(x, 2 * FINE);
    let down = 3 * FINE * size_y;
    ||| part < FINE && y < part + FINE
    ||| part > FINE && y < -part + FINE
    ||| size_y % 2 == 0 && part > FINE && y > part + down - FINE
    ||| size_y % 2 == 0 && part < FINE && y > -part + down + FINE
    ||| size_y % 2 != 0 && part < FINE && y > part + down
    ||| size_y % 2 != 0 && part > FINE && y > -part + down + 2 * FINE
}

/// How far a step moves a particle across the map, under the pressure
/// `pressure` and the jitter `jitter`.
pub open spec fn shift_x(pressure: int, jitter: int) -> int {
    quotient(pressure * jitter * (2 * FINE), UNIT as int * JITTER_UNIT as int)
}

/// How far a step moves a particle down the map.
pub open spec fn shift_y(pressure: int, jitter: int) -> int {
    quotient(pressure * jitter * RISE, UNIT as int * JITTER_UNIT as int)
}

/// Where a step takes the particle `p` under the pressure `pressure`, each
/// component with a jitter of its own: the particle is moved, then brought
/// back in if it left the map sideways.
pub open spec fn moved(p: Point, pressure: (i32, i32), jitter: (u32, u32), size_x: int) -> Point {
    let x = kept(p.x + shift_x(pressure.0 as int, jitter.0 as int));
    let y = kept(p.y + shift_y(pressure.1 as int, jitter.1 as int));
    Point { x: kept(wrapped_x(x, y, size_x)) as i64, y: y as i64 }
}

/// Number of rows of particles on a map of `size_y` rows with `grid`
/// particles to the unit of length.
pub open spec fn particle_rows(size_y: int, grid: int) -> int {
    size_y * grid + 2 * PADDING
}

/// Where particle `k` starts: the particles stand in columns from the left
/// edge on, `grid` to the unit of length, each column from `PADDING` rows
/// above the map to `PADDING` rows below.
pub open spec fn start_of(k: int, size_y: int, grid: int) -> Point {
    let rows = particle_rows(size_y, grid);
    Point {
        x: ((k / rows) * (2 * FINE) / grid) as i64,
        y: quotient((k % rows - PADDING) * RISE, grid) as i64,
    }
}

fn keep(v: i64) -> (k: i64)
    ensures
        k == kept(v as int),
        -FAR <= k <= FAR,
{
    if v < -FAR {
        -FAR
    } else if v > FAR {
        FAR
    } else {
        v
    }
}

/// Where a particle at `(x, y)` that has left the map sideways comes back
/// in.
pub fn particle_wrap(x: i64, y: i64, size_x: u32) -> (new_x: i64)
    requires
        -FAR <= x <= FAR,
        -FAR <= y <= FAR,
    ensures
        new_x == wrapped_x(x as int, y as int, size_x as int),
{
    let level = y % (6 * FINE);
    let across: i64 = 2_000 * (size_x as i64);
    assert(across == 2 * FINE * size_x);
    if level <= FINE {
        if x + level < FINE {
            x + across
        } else if x + level > across + FINE {
            x - across
        } else {
            x
        }
    } else if level <= 3 * FINE {
        if x < 0 {
            x + across
        } else if x > across {
            x - across
        } else {
            x
        }
    } else if level <= 4 * FINE {
        if x + 3 * FINE < level {
            x + across
        } else if x - across + 3 * FINE > level {
            x - across
        } else {
            x
        }
    } else {
        if x < FINE {
            x + across
        } else if x > across + FINE {
            x - across
        } else {
            x
        }
    }
}

/// Whether a particle at `(x, y)` lies above the upper edge of a map of
/// `size_y` rows or below its lower edge.
pub fn is_particle_oob(x: i64, y: i64, size_y: u32) -> (off: bool)
    requires
        -FAR <= x <= FAR,
        -FAR <= y <= FAR,
    ensures
        off == is_off_map(x as int, y as int, size_y as int),
{
    let part = x % (2 * FINE);
    let down: i64 = 3_000 * (size_y as i64);
    assert(down == 3 * FINE * size_y);
    let even = size_y % 2 == 0;
    (part < FINE && y < part + FINE) || (part > FINE && y < -part + FINE) || (even && part > FINE
        && y > part + down - FINE) || (even && part < FINE && y > -part + down + FINE) || (!even
        && part < FINE && y > part + down) || (!even && part > FINE && y > -part + down + 2 * FINE)
}

/// Where a step takes the particle `p` under the pressure `pressure` and
/// the jitter `jitter`.
pub fn advect(p: Point, pressure: (i32, i32), jitter: (u32, u32), size_x: u32) -> (q: Point)
    requires
        near(p),
        jitter.0 <= JITTER_HIGH,
        jitter.1 <= JITTER_HIGH,
    ensures
        q == moved(p, pressure, jitter, size_x as int),
        near(q),
{
    let scale: i64 = 10_000_000;
    assert(scale == UNIT as int * JITTER_UNIT as int);
    assert(-0x8000_0000 * 1100 <= pressure.0 * jitter.0 <= 0x8000_0000 * 1100)
        by (nonlinear_arith)
        requires
            -0x8000_0000 <= pressure.0 <= 0x8000_0000,
            0 <= jitter.0 <= 1100,
    ;
    assert(-0x8000_0000 * 1100 <= pressure.1 * jitter.1 <= 0x8000_0000 * 1100)
        by (nonlinear_arith)
        requires
            -0x8000_0000 <= pressure.1 <= 0x8000_0000,
            0 <= jitter.1 <= 1100,
    ;
    let push_x: i64 = pressure.0 as i64 * jitter.0 as i64;
    let push_y: i64 = pressure.1 as i64 * jitter.1 as i64;
    let dx: i64 = push_x * 2_000 / scale;
    let dy: i64 = push_y * 3_464 / scale;
    assert(pressure.0 * jitter.0 * (2 * FINE) == push_x * 2_000) by (nonlinear_arith)
        requires
            push_x == pressure.0 * jitter.0,
            FINE == 1_000,
    ;
    assert(pressure.1 * jitter.1 * RISE == push_y * 3_464) by (nonlinear_arith)
        requires
            push_y == pressure.1 * jitter.1,
            RISE == 3_464,
    ;
    let x = keep(p.x + dx);
    let y = keep(p.y + dy);
    Point { x: keep(particle_wrap(x, y, size_x)), y }
}

/// The particles at their start: `grid` to the unit of length across the
/// whole map, and down the map from `PADDING` rows of particles above it to
/// as many below.
pub fn seed_particles(map: &HexMap, grid: u32) -> (particles: Vec<Point>)
    requires
        map.sized(),
        1 <= grid,
        map.size_x * grid * particle_rows(map.size_y as int, grid as int) <= u32::MAX,
    ensures
        particles.len() == map.size_x * grid * particle_rows(map.size_y as int, grid as int),
        forall|k: int|
            0 <= k < particles.len() ==> #[trigger] particles[k] == start_of(
                k,
                map.size_y as int,
                grid as int,
            ),
        forall|k: int| 0 <= k < particles.len() ==> near(#[trigger] particles[k]),
{
    proof {
        lemma_sizes(map);
    }
    let step: i64 = grid as i64;
    assert(map.size_y * grid <= 0x1000_0000 * 0x1_0000_0000 && map.size_x * grid <= 0x1000_0000
        * 0x1_0000_0000 && 0 <= map.size_y * grid && 0 <= map.size_x * grid) by (nonlinear_arith)
        requires
            0 <= map.size_y <= 0x1000_0000,
            0 <= map.size_x <= 0x1000_0000,
            0 <= grid < 0x1_0000_0000,
    ;
    let rows: i64 = map.size_y as i64 * step + 2 * PADDING;
    let columns: i64 = map.size_x as i64 * step;
    assert(rows == particle_rows(map.size_y as int, grid as int));
    assert(columns * rows == map.size_x * grid * particle_rows(map.size_y as int, grid as int))
        by (nonlinear_arith)
        requires
            columns == map.size_x * grid,
            rows == particle_rows(map.size_y as int, grid as int),
    ;
    assert(columns >= 1) by (nonlinear_arith)
        requires
            columns == map.size_x * grid,
            map.size_x >= 1,
            grid >= 1,
    ;
    let ghost tall = map.size_y as int;
    let ghost wide = map.size_x as int;
    assert(columns <= columns * rows && rows <= columns * rows) by (nonlinear_arith)
        requires
            columns >= 1,
            rows >= 1,
    ;
    let mut particles: Vec<Point> = Vec::new();
    let mut xi: i64 = 0;
    while xi < columns
        invariant
            0 <= xi <= columns,
            1 <= step == grid,
            1 <= rows <= u32::MAX,
            rows == particle_rows(map.size_y as int, grid as int),
            columns <= u32::MAX,
            columns * rows <= u32::MAX,
            tall == map.size_y,
            tall <= MAX_AREA,
            0 <= wide <= MAX_AREA,
            columns == wide * step,
            rows == tall * step + 2 * PADDING,
            particles.len() == xi * rows,
            forall|k: int|
                0 <= k < particles.len() ==> #[trigger] particles[k] == start_of(
                    k,
                    map.size_y as int,
                    grid as int,
                ),
            forall|k: int| 0 <= k < particles.len() ==> near(#[trigger] particles[k]),
        decreases columns - xi,
    {
        let mut yi: i64 = 0;
        while yi < rows
            invariant
                0 <= xi < columns,
                0 <= yi <= rows,
                1 <= step == grid,
                1 <= rows <= u32::MAX,
                rows == particle_rows(map.size_y as int, grid as int),
                columns <= u32::MAX,
                columns * rows <= u32::MAX,
                tall == map.size_y,
                tall <= MAX_AREA,
                0 <= wide <= MAX_AREA,
                columns == wide * step,
                rows == tall * step + 2 * PADDING,
                particles.len() == xi * rows + yi,
                forall|k: int|
                    0 <= k < particles.len() ==> #[trigger] particles[k] == start_of(
                        k,
                        map.size_y as int,
                        grid as int,
                    ),
                forall|k: int| 0 <= k < particles.len() ==> near(#[trigger] particles[k]),
            decreases rows - yi,
        {
            proof {
                vstd::arithmetic::div_mod::lemma_fundamental_div_mod_converse(
                    xi * rows + yi,
                    rows as int,
                    xi as int,
                    yi as int,
                );
                assert(xi * rows + yi < columns * rows) by (nonlinear_arith)
                    requires
                        0 <= xi < columns,
                        0 <= yi < rows,
                ;
                assert(0 <= xi * rows) by (nonlinear_arith)
                    requires
                        0 <= xi,
                        0 <= rows,
                ;
            }
            let x: i64 = xi * 2_000 / step;
            let y: i64 = (yi - PADDING) * 3_464 / step;
            proof {
                assert(0 <= xi * 2_000 / (step as int) <= wide * 2_000) by (nonlinear_arith)
                    requires
                        0 <= xi < wide * step,
                        1 <= step,
                ;
                let up = (yi - PADDING) * 3_464;
                let most = tall * 3_464 + 138_560;
                assert(-138_560 <= up <= most * step) by (nonlinear_arith)
                    requires
                        up == (yi - PADDING) * 3_464,
                        0 <= yi < tall * step + 2 * PADDING,
                        PADDING == 40,
                        most == tall * 3_464 + 138_560,
                        1 <= step,
                        0 <= tall,
                ;
                if up >= 0 {
                    assert(0 <= up / (step as int) <= most) by (nonlinear_arith)
                        requires
                            0 <= up <= most * step,
                            1 <= step,
                    ;
                } else {
                    assert(0 <= (-up) / (step as int) <= 138_560) by (nonlinear_arith)
                        requires
                            0 < -up <= 138_560,
                            1 <= step,
                    ;
                }
            }
            particles.push(Point { x, y });
            yi += 1;
        }
        proof {
            assert(xi * rows + rows == (xi + 1) * rows) by (nonlinear_arith);
        }
        xi += 1;
    }
    particles
}

} // verus!
