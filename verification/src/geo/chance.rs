//! What the generator leaves to chance: where the plates are seeded, which
//! way they drift, how high they stand, how far erosion reaches and how the
//! particles jitter. The numbers are drawn from a generator of the `rand`
//! crate; of a drawn number only its range is known.

use rand::rngs::StdRng;
use rand::Rng;
use rand::SeedableRng;
use vstd::prelude::*;
use crate::geo::cost::UNIT;
use crate::geo::heights::{quotient, HEIGHT_UNIT};
use crate::geo::particles::{
    advect,
    is_off_map,
    is_particle_oob,
    moved,
    JITTER_HIGH,
    JITTER_LOW,
};
use crate::geo::plane::{
    closest_tile,
    height,
    is_closest,
    nearest,
    near,
    spec_height,
    spec_width,
    width,
    Point,
};
use crate::hexmap::HexMap;

verus! {

/// The generator of random numbers `rand::rngs::StdRng`, of which nothing
/// is known within the library: it is made, handed on and drawn from.
#[verifier::external_type_specification]
#[verifier::external_body]
pub struct ExStdRng(StdRng);

/// A generator of random numbers made from 32 bytes by
/// `SeedableRng::from_seed` of the `rand` crate. Nothing is claimed of the
/// generator.
#[verifier::external_body]
pub(crate) fn rng_from_seed(bytes: [u8; 32]) -> (rng: StdRng) {
    StdRng::from_seed(bytes)
}

/// A number drawn by `Rng::gen_range` of the `rand` crate, which gives a
/// number from `low` up to, but not including, `high`, and panics unless
/// `low` is below `high`.
#[verifier::external_body]
fn draw_between(rng: &mut StdRng, low: u64, high: u64) -> (drawn: u64)
    requires
        low < high,
    ensures
        low <= drawn < high,
{
    rng.gen_range(low, high)
}

/// Whether the point lies on the map between one tenth and nine tenths of
/// its height.
pub open spec fn in_band(map: &HexMap, p: Point) -> bool {
    &&& 0 <= p.x < spec_width(map)
    &&& spec_height(map) / 10 <= p.y < spec_height(map) * 9 / 10
}

/// A point drawn on the map, away from the upper and the lower edge.
pub fn draw_point(map: &HexMap, rng: &mut StdRng) -> (p: Point)
    requires
        map.sized(),
    ensures
        in_band(map, p),
        near(p),
{
    let w = width(map);
    let h = height(map);
    let x = draw_between(rng, 0, w as u64);
    let y = draw_between(rng, (h / 10) as u64, (h * 9 / 10) as u64);
    Point { x: x as i64, y: y as i64 }
}

/// Whether tile `t` may seed a plate: it is the tile nearest to some point
/// of the map away from the upper and the lower edge.
pub open spec fn is_seed(map: &HexMap, t: usize) -> bool {
    t < map.area() && exists|p: Point|
        in_band(map, p) && #[trigger] is_closest(map, p.x as int, p.y as int, t as int)
}

/// The seeds of `count` plates: each the tile nearest to a point drawn on
/// the map, away from the upper and the lower edge.
pub fn draw_seeds(map: &HexMap, count: u32, rng: &mut StdRng) -> (seeds: Vec<usize>)
    requires
        map.sized(),
    ensures
        seeds.len() == count,
        forall|k: int| 0 <= k < seeds.len() ==> is_seed(map, #[trigger] seeds[k]),
{
    let mut seeds: Vec<usize> = Vec::with_capacity(count as usize);
    let mut k: u32 = 0;
    while k < count
        invariant
            k <= count,
            map.sized(),
            seeds.len() == k,
            forall|j: int| 0 <= j < seeds.len() ==> is_seed(map, #[trigger] seeds[j]),
        decreases count - k,
    {
        let p = draw_point(map, rng);
        let t = closest_tile(map, p);
        proof {
            assert(is_closest(map, p.x as int, p.y as int, t as int));
            assert(is_seed(map, t));
        }
        seeds.push(t);
        k += 1;
    }
    seeds
}

/// Whether `root` is the whole part of the square root of `n`.
pub open spec fn is_root(n: int, root: int) -> bool {
    0 <= root && root * root <= n < (root + 1) * (root + 1)
}

/// The whole part of the square root of `n`.
pub fn whole_root(n: u64) -> (root: u64)
    ensures
        is_root(n as int, root as int),
        root <= 0xffff_ffff,
{
    let mut low: u64 = 0;
    let mut high: u64 = 0x1_0000_0000;
    assert(0x1_0000_0000 * 0x1_0000_0000 > n) by (nonlinear_arith)
        requires
            n <= 0xffff_ffff_ffff_ffff,
    ;
    while high - low > 1
        invariant
            low < high <= 0x1_0000_0000,
            low * low <= n < high * high,
        decreases high - low,
    {
        let mid = low + (high - low) / 2;
        assert(mid * mid <= 0x1_0000_0000 * 0x1_0000_0000) by (nonlinear_arith)
            requires
                0 <= mid <= 0x1_0000_0000,
        ;
        if (mid as u128) * (mid as u128) <= n as u128 {
            low = mid;
        } else {
            high = mid;
        }
    }
    low
}

/// By how much the square of a vector is raised before its root is taken,
/// so that the root has four more digits.
pub const ROOT_SCALE: u64 = 100_000_000;

/// The direction of `(x, y)` as a vector of length `UNIT`, each component
/// rounded toward zero; the direction to the right where both are zero.
/// `root` is the length of the vector, ten thousand times over.
pub open spec fn unit_vector(x: int, y: int, root: int) -> (int, int) {
    if root == 0 {
        (UNIT as int, 0)
    } else {
        (quotient(x * UNIT * 10_000, root), quotient(y * UNIT * 10_000, root))
    }
}

/// The direction of `(x, y)` as a vector of length `UNIT`.
pub fn normalize(x: i32, y: i32) -> (unit: (i32, i32))
    requires
        -UNIT <= x <= UNIT,
        -UNIT <= y <= UNIT,
    ensures
        exists|root: int|
            is_root((x * x + y * y) * ROOT_SCALE, root) && (unit.0 as int, unit.1 as int)
                == #[trigger] unit_vector(x as int, y as int, root),
        -UNIT <= unit.0 <= UNIT,
        -UNIT <= unit.1 <= UNIT,
{
    assert(0 <= x * x <= 100_000_000 && 0 <= y * y <= 100_000_000) by (nonlinear_arith)
        requires
            -10_000 <= x <= 10_000,
            -10_000 <= y <= 10_000,
    ;
    let square: u64 = (x as i64 * x as i64 + y as i64 * y as i64) as u64;
    let root = whole_root(square * ROOT_SCALE);
    if root == 0 {
        assert(unit_vector(x as int, y as int, 0) == (UNIT as int, 0int));
        return (UNIT, 0);
    }
    let long: i64 = root as i64;
    assert(x * UNIT * 10_000 == x * 100_000_000 && y * UNIT * 10_000 == y * 100_000_000)
        by (nonlinear_arith)
        requires
            UNIT == 10_000,
    ;
    let ux: i64 = (x as i64 * 100_000_000) / long;
    let uy: i64 = (y as i64 * 100_000_000) / long;
    proof {
        // neither component is longer than the vector
        lemma_component_bound(x as int, y as int, root as int);
        assert((y * y + x * x) * ROOT_SCALE == (x * x + y * y) * ROOT_SCALE);
        lemma_component_bound(y as int, x as int, root as int);
        assert(unit_vector(x as int, y as int, root as int) == (ux as int, uy as int));
    }
    (ux as i32, uy as i32)
}

/// A component of a vector scaled to the length `UNIT` is no longer than
/// `UNIT`.
proof fn lemma_component_bound(x: int, y: int, root: int)
    requires
        is_root((x * x + y * y) * ROOT_SCALE, root),
        root > 0,
    ensures
        -UNIT <= quotient(x * UNIT * 10_000, root) <= UNIT,
{
    let a = if x >= 0 {
        x
    } else {
        -x
    };
    let long = a * 10_000;
    assert(long * long == (x * x) * ROOT_SCALE) by (nonlinear_arith)
        requires
            long == a * 10_000,
            a == x || a == -x,
            ROOT_SCALE == 100_000_000,
    ;
    assert((x * x + y * y) * ROOT_SCALE >= (x * x) * ROOT_SCALE) by (nonlinear_arith)
        requires
            ROOT_SCALE == 100_000_000,
    ;
    // long < root + 1, so long <= root
    assert(long <= root) by (nonlinear_arith)
        requires
            long * long < (root + 1) * (root + 1),
            0 <= long,
            0 <= root,
    ;
    assert(0 <= (long * 10_000) / root <= 10_000) by (nonlinear_arith)
        requires
            0 <= long <= root,
            root > 0,
    ;
    assert(long * 10_000 == x * UNIT * 10_000 || long * 10_000 == -(x * UNIT * 10_000))
        by (nonlinear_arith)
        requires
            long == a * 10_000,
            a == x || a == -x,
            UNIT == 10_000,
    ;
}

/// Whether `drift` is the direction, brought to the length `UNIT`, of some
/// vector of the square that reaches `UNIT` to every side of the origin.
pub open spec fn is_drift(drift: (i32, i32)) -> bool {
    &&& -UNIT <= drift.0 <= UNIT
    &&& -UNIT <= drift.1 <= UNIT
    &&& exists|x: int, y: int, root: int|
        -UNIT <= x < UNIT && -UNIT <= y < UNIT && is_root((x * x + y * y) * ROOT_SCALE, root) && (
        drift.0 as int, drift.1 as int) == #[trigger] unit_vector(x, y, root)
}

/// The drifts of `count` plates: each a direction of length `UNIT`, that of
/// a vector drawn from the square round the origin.
pub fn draw_drifts(count: usize, rng: &mut StdRng) -> (drifts: Vec<(i32, i32)>)
    ensures
        drifts.len() == count,
        forall|k: int| 0 <= k < count ==> is_drift(#[trigger] drifts[k]),
{
    let mut drifts: Vec<(i32, i32)> = Vec::with_capacity(count);
    let mut k: usize = 0;
    while k < count
        invariant
            k <= count,
            drifts.len() == k,
            forall|j: int| 0 <= j < k ==> is_drift(#[trigger] drifts[j]),
        decreases count - k,
    {
        let x = draw_between(rng, 0, 2 * UNIT as u64) as i64 - UNIT as i64;
        let y = draw_between(rng, 0, 2 * UNIT as u64) as i64 - UNIT as i64;
        let drift = normalize(x as i32, y as i32);
        proof {
            let root = choose|root: int|
                is_root((x * x + y * y) * ROOT_SCALE, root) && (drift.0 as int, drift.1 as int)
                    == #[trigger] unit_vector(x as int, y as int, root);
            assert((drift.0 as int, drift.1 as int) == unit_vector(x as int, y as int, root));
        }
        drifts.push(drift);
        k += 1;
    }
    drifts
}

/// The heights of `count` plates, each below one.
pub fn draw_plate_heights(count: usize, rng: &mut StdRng) -> (heights: Vec<u32>)
    ensures
        heights.len() == count,
        forall|k: int| 0 <= k < count ==> (#[trigger] heights[k]) < HEIGHT_UNIT,
{
    let mut heights: Vec<u32> = Vec::with_capacity(count);
    let mut k: usize = 0;
    while k < count
        invariant
            k <= count,
            heights.len() == k,
            forall|j: int| 0 <= j < k ==> (#[trigger] heights[j]) < HEIGHT_UNIT,
        decreases count - k,
    {
        heights.push(draw_between(rng, 0, HEIGHT_UNIT as u64) as u32);
        k += 1;
    }
    heights
}

/// How far the erosion of each of `count` tiles reaches: from half of
/// `radius` up to, but not including, `radius`, and not at all where
/// `radius` is zero.
pub fn draw_reaches(count: usize, radius: u32, rng: &mut StdRng) -> (reaches: Vec<u32>)
    ensures
        reaches.len() == count,
        forall|k: int|
            0 <= k < count ==> radius / 2 <= (#[trigger] reaches[k]) && reaches[k] <= radius,
{
    let mut reaches: Vec<u32> = Vec::with_capacity(count);
    let mut k: usize = 0;
    while k < count
        invariant
            k <= count,
            reaches.len() == k,
            forall|j: int|
                0 <= j < k ==> radius / 2 <= (#[trigger] reaches[j]) && reaches[j] <= radius,
        decreases count - k,
    {
        if radius == 0 {
            reaches.push(0);
        } else {
            reaches.push(draw_between(rng, (radius / 2) as u64, radius as u64) as u32);
        }
        k += 1;
    }
    reaches
}

/// Whether both components of the jitter lie from nine tenths up to, but
/// not including, eleven tenths.
pub open spec fn is_jitter(jitter: (u32, u32)) -> bool {
    JITTER_LOW <= jitter.0 < JITTER_HIGH && JITTER_LOW <= jitter.1 < JITTER_HIGH
}

/// Where the particle `p` stands after one step for each of `jitters`: in
/// each step it is moved by the pressure on the tile nearest to it.
pub open spec fn walked(
    map: &HexMap,
    pressures: Seq<(i32, i32)>,
    p: Point,
    jitters: Seq<(u32, u32)>,
) -> Point
    decreases jitters.len(),
{
    if jitters.len() == 0 {
        p
    } else {
        let q = walked(map, pressures, p, jitters.drop_last());
        moved(q, pressures[nearest(map, q.x as int, q.y as int)], jitters.last(), map.size_x as int)
    }
}

/// Whether the particle `q` is where `p` may stand after `steps` steps: it
/// has walked there under some jitters.
pub open spec fn drifts_to(
    map: &HexMap,
    pressures: Seq<(i32, i32)>,
    p: Point,
    steps: nat,
    q: Point,
) -> bool {
    exists|jitters: Seq<(u32, u32)>|
        jitters.len() == steps && (forall|s: int|
            0 <= s < jitters.len() ==> is_jitter(#[trigger] jitters[s])) && q == #[trigger] walked(
            map,
            pressures,
            p,
            jitters,
        )
}

/// Lets the particles drift for `iterations` steps: in each step a particle
/// is moved by the pressure on the tile nearest to it, either component
/// with a jitter of its own, drawn from nine to eleven tenths.
pub fn drift_particles(
    map: &HexMap,
    pressures: &Vec<(i32, i32)>,
    particles: Vec<Point>,
    iterations: u32,
    rng: &mut StdRng,
) -> (drifted: Vec<Point>)
    requires
        map.sized(),
        pressures.len() == map.area(),
        forall|k: int| 0 <= k < particles.len() ==> near(#[trigger] particles[k]),
    ensures
        drifted.len() == particles.len(),
        forall|k: int| 0 <= k < drifted.len() ==> near(#[trigger] drifted[k]),
        forall|k: int|
            0 <= k < drifted.len() ==> drifts_to(
                map,
                pressures@,
                particles[k],
                iterations as nat,
                #[trigger] drifted[k],
            ),
{
    let ghost start = particles@;
    let mut drifted = particles;
    let count = drifted.len();
    let mut step: u32 = 0;
    proof {
        assert forall|k: int| 0 <= k < drifted.len() implies drifts_to(
            map,
            pressures@,
            start[k],
            0,
            #[trigger] drifted[k],
        ) by {
            let none = Seq::<(u32, u32)>::empty();
            assert(drifted[k] == walked(map, pressures@, start[k], none));
        }
    }
    while step < iterations
        invariant
            step <= iterations,
            map.sized(),
            pressures.len() == map.area(),
            drifted.len() == count,
            count == start.len(),
            forall|k: int| 0 <= k < drifted.len() ==> near(#[trigger] drifted[k]),
            forall|k: int|
                0 <= k < drifted.len() ==> drifts_to(
                    map,
                    pressures@,
                    start[k],
                    step as nat,
                    #[trigger] drifted[k],
                ),
        decreases iterations - step,
    {
        let mut k: usize = 0;
        while k < count
            invariant
                k <= count,
                step < iterations,
                map.sized(),
                pressures.len() == map.area(),
                drifted.len() == count,
                count == start.len(),
                forall|j: int| 0 <= j < drifted.len() ==> near(#[trigger] drifted[j]),
                forall|j: int|
                    0 <= j < k ==> drifts_to(
                        map,
                        pressures@,
                        start[j],
                        (step + 1) as nat,
                        #[trigger] drifted[j],
                    ),
                forall|j: int|
                    k <= j < count ==> drifts_to(
                        map,
                        pressures@,
                        start[j],
                        step as nat,
                        #[trigger] drifted[j],
                    ),
            decreases count - k,
        {
            let p = drifted[k];
            let t = closest_tile(map, p);
            let jitter_x = draw_between(rng, JITTER_LOW as u64, JITTER_HIGH as u64) as u32;
            let jitter_y = draw_between(rng, JITTER_LOW as u64, JITTER_HIGH as u64) as u32;
            let q = advect(p, pressures[t], (jitter_x, jitter_y), map.size_x);
            proof {
                assert(drifts_to(map, pressures@, start[k as int], step as nat, p));
                let before = choose|jitters: Seq<(u32, u32)>|
                    jitters.len() == step && (forall|s: int|
                        0 <= s < jitters.len() ==> is_jitter(#[trigger] jitters[s])) && p
                        == #[trigger] walked(map, pressures@, start[k as int], jitters);
                let now = before.push((jitter_x, jitter_y));
                assert(now.drop_last() =~= before);
                assert(q == walked(map, pressures@, start[k as int], now));
                assert forall|s: int| 0 <= s < now.len() implies is_jitter(#[trigger] now[s]) by {
                    if s < before.len() {
                        assert(now[s] == before[s]);
                    }
                }
            }
            drifted.set(k, q);
            k += 1;
        }
        step += 1;
    }
    drifted
}

/// The tiles on which the particles came to rest: for each particle that
/// lies neither above the upper edge of the map nor below the lower, the
/// tile nearest to it.
pub open spec fn landed(map: &HexMap, particles: Seq<Point>) -> Seq<usize>
    decreases particles.len(),
{
    if particles.len() == 0 {
        Seq::empty()
    } else {
        let rest = landed(map, particles.drop_last());
        let p = particles.last();
        if is_off_map(p.x as int, p.y as int, map.size_y as int) {
            rest
        } else {
            rest.push(nearest(map, p.x as int, p.y as int) as usize)
        }
    }
}

/// The tiles on which the particles came to rest.
pub fn land_particles(map: &HexMap, particles: &Vec<Point>) -> (hits: Vec<usize>)
    requires
        map.sized(),
        forall|k: int| 0 <= k < particles.len() ==> near(#[trigger] particles[k]),
    ensures
        hits@ == landed(map, particles@),
        hits.len() <= particles.len(),
        forall|k: int| 0 <= k < hits.len() ==> (#[trigger] hits[k]) < map.area(),
{
    let mut hits: Vec<usize> = Vec::new();
    let mut k: usize = 0;
    assert(particles@.take(0) =~= Seq::<Point>::empty());
    while k < particles.len()
        invariant
            k <= particles.len(),
            map.sized(),
            forall|j: int| 0 <= j < particles.len() ==> near(#[trigger] particles[j]),
            hits@ == landed(map, particles@.take(k as int)),
            hits.len() <= k,
            forall|j: int| 0 <= j < hits.len() ==> (#[trigger] hits[j]) < map.area(),
        decreases particles.len() - k,
    {
        proof {
            assert(particles@.take(k + 1).drop_last() =~= particles@.take(k as int));
        }
        let p = particles[k];
        if !is_particle_oob(p.x, p.y, map.size_y) {
            hits.push(closest_tile(map, p));
        }
        k += 1;
    }
    assert(particles@.take(particles.len() as int) =~= particles@);
    hits
}

} // verus!
