//! The flow field: for each tile a direction out of warped noise.
//!
//! The noise itself is not part of the library. It is handed in as a
//! function of two coordinates, counted in millionths, that gives a value
//! in ten-thousandths; the library decides where to ask and what to make of
//! the answers.

use vstd::prelude::*;
use crate::geo::chance::{is_root, normalize, unit_vector, ROOT_SCALE};
use crate::geo::cost::UNIT;
use crate::geo::heights::quotient;
use crate::geo::plane::{centre, lemma_sizes, spec_width, width, FINE, RISE};
use crate::hexmap::{HexMap, MAX_AREA};

verus! {

/// Number of steps of the noise's coordinates in one unit.
pub const NOISE_UNIT: i64 = 1_000_000;

/// How far the second reading of the noise is set off from the first.
pub const OFFSET: i64 = 5_000;

/// A value of the noise kept within one unit.
pub open spec fn leveled(v: int) -> int {
    if v < -UNIT {
        -UNIT as int
    } else if v > UNIT {
        UNIT as int
    } else {
        v
    }
}

/// Where the noise is read for a point of the plane: the map is five units
/// of the noise wide.
pub open spec fn read_at(px: int, py: int, wide: int) -> (int, int) {
    (5 * px * NOISE_UNIT / wide, 10 * FINE * py * NOISE_UNIT / (RISE * wide))
}

/// A value of the noise as a length in the noise's coordinates.
pub open spec fn as_length(v: int) -> int {
    leveled(v) * 100
}

/// Whether the four values are readings of the noise for `(sx, sy)` under
/// `seed`: `base_x` and `base_y` are read at the place itself, each set off
/// by the seed along one axis, `noise_x` and `noise_y` where these two lead,
/// set off likewise.
pub open spec fn are_readings<F: Fn(i64, i64) -> i32>(
    sample: &F,
    seed: u32,
    sx: i64,
    sy: i64,
    base_x: i32,
    base_y: i32,
    noise_x: i32,
    noise_y: i32,
) -> bool {
    let far = seed as int * NOISE_UNIT;
    &&& call_ensures(*sample, ((sx + far) as i64, sy), base_x)
    &&& call_ensures(*sample, (sx, (sy - far) as i64), base_y)
    &&& call_ensures(
        *sample,
        (
            (sx + as_length(base_x as int)) as i64,
            (sy + as_length(base_y as int) + far - OFFSET * NOISE_UNIT) as i64,
        ),
        noise_x,
    )
    &&& call_ensures(
        *sample,
        ((sx - far + as_length(base_x as int)) as i64, (sy + as_length(base_y as int)) as i64),
        noise_y,
    )
}

/// Whether `found` is what the warped noise gives at `(sx, sy)` under
/// `seed`: the noise is read twice, and then twice more where the first
/// two readings lead.
pub open spec fn is_warped<F: Fn(i64, i64) -> i32>(
    sample: &F,
    seed: u32,
    sx: i64,
    sy: i64,
    found: (int, int),
) -> bool {
    exists|base_x: i32, base_y: i32, noise_x: i32, noise_y: i32| #[trigger]
        are_readings(sample, seed, sx, sy, base_x, base_y, noise_x, noise_y) && found == (
            leveled(noise_x as int),
            leveled(noise_y as int),
        )
}

/// The weight, out of `FINE * size_x`, with which the noise one map width
/// further on enters at a tile whose centre lies `cx` across the map: all
/// at the left edge, falling to nothing at the middle of the map.
pub open spec fn blend_weight(cx: int, size_x: int) -> int {
    if cx < FINE * size_x {
        FINE * size_x - (cx - FINE)
    } else {
        0
    }
}

/// Two values blended with the weight `weight` out of `whole` for the
/// first.
pub open spec fn blended(first: int, second: int, weight: int, whole: int) -> int {
    quotient(weight * first + (whole - weight) * second, whole)
}

/// Whether `flow` is a direction that the warped noise gives for tile `i`:
/// the noise at the tile's centre, blended near the left edge with the
/// noise one map width further to the right, brought to the length `UNIT`.
pub open spec fn is_flow<F: Fn(i64, i64) -> i32>(
    map: &HexMap,
    seed: u32,
    sample: &F,
    i: int,
    flow: (i32, i32),
) -> bool {
    exists|near: (int, int), far: (int, int), root: int| #[trigger]
        flows_from(map, seed, sample, i, near, far, root, flow)
}

/// Whether `flow` is a flow field of the map under `seed`: it holds for
/// each tile a direction that the warped noise gives.
pub open spec fn is_flow_field<F: Fn(i64, i64) -> i32>(
    map: &HexMap,
    seed: u32,
    sample: &F,
    flow: Seq<(i32, i32)>,
) -> bool {
    flow.len() == map.area() && forall|i: int|
        0 <= i < map.area() ==> is_flow(map, seed, sample, i, #[trigger] flow[i])
}

/// Whether `flow` is the direction for tile `i` that comes of the noise
/// `near` at the tile's centre and the noise `far` one map width further
/// on, with `root` the length of their blend.
pub open spec fn flows_from<F: Fn(i64, i64) -> i32>(
    map: &HexMap,
    seed: u32,
    sample: &F,
    i: int,
    near: (int, int),
    far: (int, int),
    root: int,
    flow: (i32, i32),
) -> bool {
    let c = centre(i, map.size_x as int);
    let wide = spec_width(map);
    let here = read_at(c.0, c.1, wide);
    let there = read_at(c.0 + 2 * FINE * map.size_x, c.1, wide);
    let weight = blend_weight(c.0, map.size_x as int);
    let whole = FINE * map.size_x;
    let x = blended(far.0, near.0, weight, whole);
    let y = blended(far.1, near.1, weight, whole);
    &&& is_warped(sample, seed, here.0 as i64, here.1 as i64, near)
    &&& weight > 0 ==> is_warped(sample, seed, there.0 as i64, there.1 as i64, far)
    &&& weight == 0 ==> far == near
    &&& is_root((x * x + y * y) * ROOT_SCALE, root)
    &&& (flow.0 as int, flow.1 as int) == unit_vector(x, y, root)
}

fn level(v: i32) -> (l: i32)
    ensures
        l == leveled(v as int),
        -UNIT <= l <= UNIT,
{
    if v < -UNIT {
        -UNIT
    } else if v > UNIT {
        UNIT
    } else {
        v
    }
}

/// What the warped noise gives at `(sx, sy)` under `seed`.
pub fn warped<F: Fn(i64, i64) -> i32>(sample: &F, seed: u32, sx: i64, sy: i64) -> (found: (i32, i32))
    requires
        forall|a: i64, b: i64| call_requires(*sample, (a, b)),
        -0x1000_0000_0000_0000 <= sx <= 0x1000_0000_0000_0000,
        -0x1000_0000_0000_0000 <= sy <= 0x1000_0000_0000_0000,
    ensures
        is_warped(sample, seed, sx, sy, (found.0 as int, found.1 as int)),
        -UNIT <= found.0 <= UNIT,
        -UNIT <= found.1 <= UNIT,
{
    let far: i64 = seed as i64 * NOISE_UNIT;
    let base_x = sample(sx + far, sy);
    let base_y = sample(sx, sy - far);
    let step_x: i64 = level(base_x) as i64 * 100;
    let step_y: i64 = level(base_y) as i64 * 100;
    let noise_x = sample(sx + step_x, sy + step_y + far - OFFSET * NOISE_UNIT);
    let noise_y = sample(sx - far + step_x, sy + step_y);
    let found = (level(noise_x), level(noise_y));
    proof {
        assert(step_x == as_length(base_x as int));
        assert(step_y == as_length(base_y as int));
        assert(are_readings(sample, seed, sx, sy, base_x, base_y, noise_x, noise_y));
    }
    found
}

/// The flow field of the map under `seed`: for each tile the direction that
/// the warped noise gives.
pub fn flow_field<F: Fn(i64, i64) -> i32>(map: &HexMap, seed: u32, sample: &F) -> (flow: Vec<
    (i32, i32),
>)
    requires
        map.sized(),
        forall|a: i64, b: i64| call_requires(*sample, (a, b)),
    ensures
        flow.len() == map.area(),
        forall|i: int| 0 <= i < map.area() ==> is_flow(map, seed, sample, i, #[trigger] flow[i]),
{
    proof {
        lemma_sizes(map);
    }
    let area = map.field.len();
    let size_x = map.size_x as i64;
    let wide = width(map);
    let whole: i64 = FINE * size_x;
    let mut flow: Vec<(i32, i32)> = Vec::with_capacity(area);
    let mut i: usize = 0;
    while i < area
        invariant
            i <= area,
            area == map.area(),
            map.sized(),
            size_x == map.size_x,
            1 <= size_x <= MAX_AREA,
            area <= MAX_AREA,
            wide == spec_width(map),
            wide == FINE * (2 * size_x + 1),
            whole == FINE * size_x,
            forall|a: i64, b: i64| call_requires(*sample, (a, b)),
            flow.len() == i,
            forall|j: int| 0 <= j < i ==> is_flow(map, seed, sample, j, #[trigger] flow[j]),
        decreases area - i,
    {
        let col = (i % (size_x as usize)) as i64;
        let row = (i / (size_x as usize)) as i64;
        proof {
            vstd::arithmetic::div_mod::lemma_fundamental_div_mod(i as int, size_x as int);
            vstd::arithmetic::div_mod::lemma_mod_bound(i as int, size_x as int);
            crate::hexmap::lemma_index_round_trip(i as int, size_x as int, map.size_y as int);
        }
        let cx: i64 = FINE * (2 * col + 1 + row % 2);
        let cy: i64 = FINE * (3 * row + 2);
        let here = read(cx, cy, wide);
        let near = warped(sample, seed, here.0, here.1);
        let weight: i64 = if cx < whole {
            whole - (cx - FINE)
        } else {
            0
        };
        let mut far = near;
        if weight > 0 {
            let there = read(cx + 2 * whole, cy, wide);
            far = warped(sample, seed, there.0, there.1);
        }
        let x = blend(far.0, near.0, weight, whole);
        let y = blend(far.1, near.1, weight, whole);
        let unit = normalize(x, y);
        proof {
            let root = choose|root: int|
                is_root((x * x + y * y) * ROOT_SCALE, root) && (unit.0 as int, unit.1 as int)
                    == #[trigger] unit_vector(x as int, y as int, root);
            let near_int = (near.0 as int, near.1 as int);
            let far_int = (far.0 as int, far.1 as int);
            crate::geo::plane::lemma_centre(i as int, size_x as int);
            let c = centre(i as int, map.size_x as int);
            assert(c == (cx as int, cy as int));
            assert(blend_weight(c.0, map.size_x as int) == weight);
            assert(FINE * map.size_x == whole);
            let spot = read_at(c.0, c.1, spec_width(map));
            assert(spot == (here.0 as int, here.1 as int));
            assert(is_warped(sample, seed, spot.0 as i64, spot.1 as i64, near_int));
            if weight > 0 {
                let other = read_at(c.0 + 2 * FINE * map.size_x, c.1, spec_width(map));
                assert(2 * FINE * map.size_x == 2 * whole) by (nonlinear_arith)
                    requires
                        whole == FINE * map.size_x,
                ;
                assert(is_warped(sample, seed, other.0 as i64, other.1 as i64, far_int));
            }
            let bx = blended(far_int.0, near_int.0, weight as int, whole as int);
            let by = blended(far_int.1, near_int.1, weight as int, whole as int);
            assert(bx == x && by == y);
            assert(is_root((bx * bx + by * by) * ROOT_SCALE, root));
            assert(flows_from(map, seed, sample, i as int, near_int, far_int, root, unit));
        }
        flow.push(unit);
        i += 1;
    }
    flow
}

/// Where the noise is read for a point of the plane.
fn read(px: i64, py: i64, wide: i64) -> (at: (i64, i64))
    requires
        0 <= px <= 2 * wide,
        0 <= py <= 0x100_0000_0000,
        3_000 <= wide <= 0x100_0000_0000,
    ensures
        (at.0 as int, at.1 as int) == read_at(px as int, py as int, wide as int),
        0 <= at.0 <= 0x1000_0000_0000_0000,
        0 <= at.1 <= 0x1000_0000_0000_0000,
{
    let top: i128 = 5_000_000 * (px as i128);
    assert(top == 5 * px * NOISE_UNIT) by (nonlinear_arith)
        requires
            top == 5_000_000 * px,
            NOISE_UNIT == 1_000_000,
    ;
    assert(0 <= top / (wide as i128) <= 10_000_000) by (nonlinear_arith)
        requires
            top == 5_000_000 * px,
            0 <= px <= 2 * wide,
            1 <= wide,
    ;
    let across: i128 = top / (wide as i128);
    let scale: i128 = 3_464 * (wide as i128);
    assert(scale == RISE * wide);
    let high: i128 = 10_000_000_000 * (py as i128);
    assert(high == 10 * FINE * py * NOISE_UNIT) by (nonlinear_arith)
        requires
            high == 10_000_000_000 * py,
            NOISE_UNIT == 1_000_000,
            FINE == 1_000,
    ;
    assert(0 <= high / scale <= 0x1000_0000_0000_0000) by (nonlinear_arith)
        requires
            high == 10_000_000_000 * py,
            0 <= py <= 0x100_0000_0000,
            scale >= 3_464 * 3_000,
    ;
    let down: i128 = high / scale;
    (across as i64, down as i64)
}

/// Two values blended with the weight `weight` out of `whole` for the
/// first.
fn blend(first: i32, second: i32, weight: i64, whole: i64) -> (mixed: i32)
    requires
        -UNIT <= first <= UNIT,
        -UNIT <= second <= UNIT,
        0 <= weight <= whole,
        1 <= whole <= 0x100_0000_0000,
    ensures
        mixed == blended(first as int, second as int, weight as int, whole as int),
        -UNIT <= mixed <= UNIT,
{
    let rest = whole - weight;
    assert(-UNIT * weight <= weight * first <= UNIT * weight) by (nonlinear_arith)
        requires
            -UNIT <= first <= UNIT,
            0 <= weight,
    ;
    assert(-UNIT * rest <= rest * second <= UNIT * rest) by (nonlinear_arith)
        requires
            -UNIT <= second <= UNIT,
            0 <= rest,
    ;
    assert(UNIT * weight + UNIT * rest == UNIT * whole) by (nonlinear_arith)
        requires
            rest == whole - weight,
    ;
    assert(UNIT * whole <= 10_000 * 0x100_0000_0000) by (nonlinear_arith)
        requires
            UNIT == 10_000,
            0 <= whole <= 0x100_0000_0000,
    ;
    assert(-10_000 * 0x100_0000_0000 <= weight * first <= 10_000 * 0x100_0000_0000
        && -10_000 * 0x100_0000_0000 <= rest * second <= 10_000 * 0x100_0000_0000)
        by (nonlinear_arith)
        requires
            -10_000 <= first <= 10_000,
            -10_000 <= second <= 10_000,
            0 <= weight <= 0x100_0000_0000,
            0 <= rest <= 0x100_0000_0000,
    ;
    let sum: i64 = weight * first as i64 + rest * second as i64;
    proof {
        crate::geo::heights::lemma_mean_between(
            sum as int,
            whole as int,
            -UNIT as int,
            UNIT as int,
        );
        assert(whole * (-UNIT) == -(UNIT * whole) && whole * UNIT == UNIT * whole)
            by (nonlinear_arith);
    }
    (sum / whole) as i32
}

} // verus!
