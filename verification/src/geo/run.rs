//! What a run of the generator is: the numbers that were drawn, and what
//! each stage made of them. The generator draws its numbers itself, so its
//! own contract cannot name them; it says that they exist.

use vstd::prelude::*;
use crate::geo::chance::{drifts_to, is_drift, is_seed, landed};
use crate::geo::heights::{
    height_at,
    hits_on,
    pressure_at,
    spec_pressure_radius,
    HEIGHT_UNIT,
};
use crate::geo::land::{levels, terrain_at};
use crate::geo::particles::{particle_rows, start_of};
use crate::geo::plane::Point;
use crate::geo::plates::{holes, is_nearest_plate, lemma_nearest_plate_unique, tally};
use crate::geo::route::{adjacent, lemma_neighbour_indices_in_map};
use crate::geo::tidy::{
    after_passes,
    fills_in,
    is_island,
    is_small,
    lemma_holes_gone,
    lemma_holes_never_grow,
    meets,
    rank_of,
    stalls_at,
    touches,
    trimmed,
    without_islands,
    without_small,
};
use crate::hex::Hex;
use crate::hexmap::HexMap;

verus! {

/// The plates as they are first divided: where they are seeded, which
/// plate each tile goes to, and how many tiles each plate has.
pub struct Division {
    pub seeds: Seq<usize>,
    pub labels: Seq<Option<usize>>,
    pub counts: Seq<usize>,
}

/// Everything that a run of the generator draws and forms.
pub struct Run {
    /// The plates as they are first divided.
    pub division: Division,
    /// Number of passes that fill the holes left by tidying.
    pub passes: nat,
    /// The plate of each tile once the plates are tidied.
    pub tidied: Seq<Option<usize>>,
    /// The number of tiles of each plate once the plates are tidied.
    pub sizes: Seq<usize>,
    /// For each tile the rank of its plate among the plates with tiles.
    pub ranks: Seq<usize>,
    /// The drift of each plate with tiles.
    pub drifts: Seq<(i32, i32)>,
    /// The pressure on each tile.
    pub pressures: Seq<(i32, i32)>,
    /// The particles where they came to rest.
    pub drifted: Seq<Point>,
    /// The number of particles on each tile, and the greatest of them.
    pub gathered: Seq<u32>,
    pub most: u32,
    /// The height of each plate with tiles.
    pub plate_heights: Seq<u32>,
    /// How far the erosion of each tile reaches.
    pub reaches: Seq<u32>,
    /// The height of each tile.
    pub heights: Seq<u32>,
}

/// Whether `division` is a division of the map among `count` plates: every
/// seed is the tile nearest to a point of the band, every tile goes to the
/// nearest plate across the flow field, and the counts are the tallies.
pub open spec fn is_division(map: &HexMap, flow: Seq<(i32, i32)>, count: int, division: Division) -> bool {
    &&& division.seeds.len() == count
    &&& forall|k: int| 0 <= k < count ==> is_seed(map, #[trigger] division.seeds[k])
    &&& division.labels.len() == map.area()
    &&& forall|b: int|
        0 <= b < map.area() ==> (#[trigger] division.labels[b]).is_some() && is_nearest_plate(
            map,
            flow,
            division.seeds,
            b,
            division.labels[b].unwrap() as int,
        )
    &&& division.counts.len() == count
    &&& forall|p: int| 0 <= p < count ==> #[trigger] division.counts[p] == tally(division.labels, p)
}

/// The labels of a division once the small plates and the islands are
/// dissolved.
pub open spec fn left(map: &HexMap, division: Division) -> Seq<Option<usize>> {
    trimmed(map, division.seeds, division.labels, division.counts)
}

/// Whether no plate of the division survives the tidying.
pub open spec fn leaves_none(map: &HexMap, division: Division) -> bool {
    holes(left(map, division)) == map.area()
}

/// Whether filling the holes of the division stalls: a plate survives, but
/// some pass changes nothing while holes remain.
pub open spec fn stalls(map: &HexMap, division: Division) -> bool {
    holes(left(map, division)) < map.area() && exists|k: nat| #[trigger]
        stalls_at(map, left(map, division), k)
}

/// Whether `gathered` tells for each of `area` tiles how many of `hits` name
/// it, and `most` is the greatest of these numbers.
pub open spec fn counts_hits(hits: Seq<usize>, area: int, gathered: Seq<u32>, most: u32) -> bool {
    &&& gathered.len() == area
    &&& forall|c: int| 0 <= c < area ==> #[trigger] gathered[c] == hits_on(hits, c)
    &&& forall|c: int| 0 <= c < area ==> #[trigger] gathered[c] <= most
    &&& most == 0 || exists|c: int| 0 <= c < area && #[trigger] gathered[c] == most
}

/// Whether `run` is a run of the generator on the map across `flow`, with
/// `plates` plates, `density` particles to the unit of length and
/// `iterations` steps of drift: each stage is fed what the stage before it
/// gave, and every number left to chance lies in its range.
pub open spec fn is_run(
    map: &HexMap,
    flow: Seq<(i32, i32)>,
    plates: u32,
    density: u32,
    iterations: u32,
    run: Run,
) -> bool {
    let radius = spec_pressure_radius(map);
    let survivors = rank_of(run.sizes, plates as int);
    let particles = map.size_x * density * particle_rows(map.size_y as int, density as int);
    // the plates are divided and tidied
    &&& is_division(map, flow, plates as int, run.division)
    &&& run.tidied == after_passes(map, left(map, run.division), run.passes)
    &&& fills_in(map, left(map, run.division), run.passes)
    &&& run.tidied.len() == map.area()
    &&& forall|b: int| 0 <= b < map.area() ==> (#[trigger] run.tidied[b]).is_some()
    &&& run.sizes.len() == plates
    &&& forall|p: int| 0 <= p < plates ==> #[trigger] run.sizes[p] == tally(run.tidied, p)
    &&& run.ranks.len() == map.area()
    &&& forall|b: int|
        0 <= b < map.area() ==> #[trigger] run.ranks[b] == rank_of(
            run.sizes,
            run.tidied[b].unwrap() as int,
        )
    // the plates drift and press on the tiles
    &&& run.drifts.len() == survivors
    &&& forall|k: int| 0 <= k < survivors ==> is_drift(#[trigger] run.drifts[k])
    &&& run.pressures.len() == map.area()
    &&& forall|i: int|
        0 <= i < map.area() ==> (#[trigger] run.pressures[i].0 as int, run.pressures[i].1 as int)
            == pressure_at(map, run.ranks, run.drifts, radius as nat, i)
    // the particles drift and come to rest
    &&& run.drifted.len() == particles
    &&& forall|k: int|
        0 <= k < particles ==> drifts_to(
            map,
            run.pressures,
            start_of(k, map.size_y as int, density as int),
            iterations as nat,
            #[trigger] run.drifted[k],
        )
    &&& counts_hits(landed(map, run.drifted), map.area(), run.gathered, run.most)
    // the heights come of the plates and the particles
    &&& run.plate_heights.len() == survivors
    &&& forall|p: int| 0 <= p < survivors ==> (#[trigger] run.plate_heights[p]) < HEIGHT_UNIT
    &&& run.reaches.len() == map.area()
    &&& forall|t: int|
        0 <= t < map.area() ==> radius / 2 <= (#[trigger] run.reaches[t]) <= radius
    &&& run.heights.len() == map.area()
    &&& forall|i: int|
        0 <= i < map.area() ==> #[trigger] run.heights[i] == height_at(
            map,
            run.ranks,
            run.plate_heights,
            run.reaches,
            run.gathered,
            run.most as int,
            i,
        )
}

/// Whether the map `after` is the map `before` with the terrain that
/// `heights` call for.
pub open spec fn shows(before: HexMap, after: HexMap, heights: Seq<u32>) -> bool {
    &&& heights.len() == before.area()
    &&& after.size_x == before.size_x
    &&& after.size_y == before.size_y
    &&& after.field.len() == before.field.len()
    &&& forall|i: int|
        0 <= i < before.area() ==> #[trigger] after.field[i] == (Hex {
            terrain_type: terrain_at(heights[i], levels(heights)),
            ..before.field[i]
        })
}

/// A plate that every label names has every tile.
pub proof fn lemma_tally_all(labels: Seq<Option<usize>>, p: int)
    requires
        forall|i: int| 0 <= i < labels.len() ==> labels[i] == Some(p as usize),
    ensures
        tally(labels, p) == labels.len(),
    decreases labels.len(),
{
    if labels.len() > 0 {
        let front = labels.drop_last();
        assert forall|i: int| 0 <= i < front.len() implies front[i] == Some(p as usize) by {
            assert(front[i] == labels[i]);
        }
        lemma_tally_all(front, p);
    }
}

/// A lone plate has every tile and keeps it: it is neither small nor an
/// island, so tidying dissolves nothing and leaves no hole.
pub proof fn lemma_lone_plate(map: &HexMap, flow: Seq<(i32, i32)>, division: Division)
    requires
        map.sized(),
        is_division(map, flow, 1, division),
    ensures
        left(map, division) == division.labels,
        holes(left(map, division)) == 0,
        !leaves_none(map, division),
        !stalls(map, division),
{
    let labels = division.labels;
    let area = map.area();
    assert(area >= 1) by (nonlinear_arith)
        requires
            area == map.size_x * map.size_y,
            map.size_x >= 1,
            map.size_y >= 1,
    ;
    assert forall|b: int| 0 <= b < labels.len() implies labels[b] == Some(0usize) by {
        assert(labels[b].is_some());
        assert(is_nearest_plate(map, flow, division.seeds, b, labels[b].unwrap() as int));
    }
    lemma_tally_all(labels, 0);
    assert(division.counts[0] == tally(labels, 0));
    assert(!is_small(area, area));
    let kept = without_small(labels, division.counts);
    assert(kept =~= labels);
    // the plate touches no other, for there is no other
    assert(!is_island(map, labels, division.seeds[0] as int, 0)) by {
        if is_island(map, labels, division.seeds[0] as int, 0) {
            let q = choose|q: usize| #[trigger]
                touches(map, labels, division.seeds[0] as int, 0, q);
            let (t, n) = choose|t: int, n: int| #[trigger]
                meets(map, labels, division.seeds[0] as int, 0, q, t, n);
            lemma_neighbour_indices_in_map(map, t);
            assert(adjacent(map, t, n));
            assert(labels[n] == Some(0usize));
        }
    }
    assert(without_islands(map, division.seeds, kept, 0) == kept);
    assert(without_islands(map, division.seeds, kept, 1) == kept);
    assert(left(map, division) == labels);
    lemma_holes_gone(labels);
    if stalls(map, division) {
        let k = choose|k: nat| #[trigger] stalls_at(map, left(map, division), k);
        lemma_holes_never_grow(map, labels, 0, k);
    }
}

/// The seeds fix the division: two divisions of one map across one flow
/// field from the same seeds are the same.
pub proof fn lemma_seeds_fix_division(
    map: &HexMap,
    flow: Seq<(i32, i32)>,
    count: int,
    a: Division,
    b: Division,
)
    requires
        is_division(map, flow, count, a),
        is_division(map, flow, count, b),
        a.seeds == b.seeds,
    ensures
        a == b,
{
    assert forall|t: int| 0 <= t < map.area() implies a.labels[t] == b.labels[t] by {
        assert(a.labels[t].is_some() && b.labels[t].is_some());
        lemma_nearest_plate_unique(
            map,
            flow,
            a.seeds,
            t,
            a.labels[t].unwrap() as int,
            b.labels[t].unwrap() as int,
        );
    }
    assert(a.labels =~= b.labels);
    assert forall|p: int| 0 <= p < count implies a.counts[p] == b.counts[p] by {
        assert(a.counts[p] == tally(a.labels, p));
        assert(b.counts[p] == tally(b.labels, p));
    }
    assert(a.counts =~= b.counts);
}

/// Height determinism, as far as it goes without the draws: the numbers
/// that are drawn fix the run. Two runs on one map across one flow field
/// that drew the same seeds, drifts, jitters (so that the particles came to
/// rest at the same places), plate heights and reaches give the same
/// heights.
pub proof fn lemma_draws_fix_heights(
    map: &HexMap,
    flow: Seq<(i32, i32)>,
    plates: u32,
    density: u32,
    iterations: u32,
    a: Run,
    b: Run,
)
    requires
        is_run(map, flow, plates, density, iterations, a),
        is_run(map, flow, plates, density, iterations, b),
        a.division.seeds == b.division.seeds,
        a.drifts == b.drifts,
        a.drifted == b.drifted,
        a.plate_heights == b.plate_heights,
        a.reaches == b.reaches,
    ensures
        a.tidied == b.tidied,
        a.ranks == b.ranks,
        a.pressures == b.pressures,
        a.gathered == b.gathered,
        a.most == b.most,
        a.heights == b.heights,
{
    lemma_seeds_fix_division(map, flow, plates as int, a.division, b.division);
    let start = left(map, a.division);
    // the holes are filled after the same number of passes
    if a.passes < b.passes {
        assert(holes(after_passes(map, start, a.passes)) > 0);
    }
    if b.passes < a.passes {
        assert(holes(after_passes(map, start, b.passes)) > 0);
    }
    assert(a.tidied == b.tidied);
    assert forall|p: int| 0 <= p < plates implies a.sizes[p] == b.sizes[p] by {
        assert(a.sizes[p] == tally(a.tidied, p));
        assert(b.sizes[p] == tally(b.tidied, p));
    }
    assert(a.sizes =~= b.sizes);
    assert forall|t: int| 0 <= t < map.area() implies a.ranks[t] == b.ranks[t] by {
        assert(a.ranks[t] == rank_of(a.sizes, a.tidied[t].unwrap() as int));
        assert(b.ranks[t] == rank_of(b.sizes, b.tidied[t].unwrap() as int));
    }
    assert(a.ranks =~= b.ranks);
    assert forall|i: int| 0 <= i < map.area() implies a.pressures[i] == b.pressures[i] by {
        let p = pressure_at(map, a.ranks, a.drifts, spec_pressure_radius(map) as nat, i);
        assert((a.pressures[i].0 as int, a.pressures[i].1 as int) == p);
        assert((b.pressures[i].0 as int, b.pressures[i].1 as int) == p);
    }
    assert(a.pressures =~= b.pressures);
    let hits = landed(map, a.drifted);
    assert forall|c: int| 0 <= c < map.area() implies a.gathered[c] == b.gathered[c] by {
        assert(a.gathered[c] == hits_on(hits, c));
        assert(b.gathered[c] == hits_on(hits, c));
    }
    assert(a.gathered =~= b.gathered);
    if a.most != 0 {
        let c = choose|c: int| 0 <= c < map.area() && #[trigger] a.gathered[c] == a.most;
        assert(b.gathered[c] <= b.most);
    }
    if b.most != 0 {
        let c = choose|c: int| 0 <= c < map.area() && #[trigger] b.gathered[c] == b.most;
        assert(a.gathered[c] <= a.most);
    }
    assert(a.most == b.most);
    assert forall|i: int| 0 <= i < map.area() implies a.heights[i] == b.heights[i] by {
        assert(a.heights[i] == height_at(
            map,
            a.ranks,
            a.plate_heights,
            a.reaches,
            a.gathered,
            a.most as int,
            i,
        ));
        assert(b.heights[i] == height_at(
            map,
            b.ranks,
            b.plate_heights,
            b.reaches,
            b.gathered,
            b.most as int,
            i,
        ));
    }
    assert(a.heights =~= b.heights);
}

/// The heights fix the terrain: two maps that show the same heights on the
/// same map are the same.
pub proof fn lemma_heights_fix_map(before: HexMap, first: HexMap, second: HexMap, heights: Seq<u32>)
    requires
        before.sized(),
        shows(before, first, heights),
        shows(before, second, heights),
    ensures
        first.size_x == second.size_x,
        first.size_y == second.size_y,
        first.field@ == second.field@,
{
    assert forall|i: int| 0 <= i < first.field.len() implies first.field[i] == second.field[i] by {
        assert(first.field[i] == (Hex {
            terrain_type: terrain_at(heights[i], levels(heights)),
            ..before.field[i]
        }));
        assert(second.field[i] == (Hex {
            terrain_type: terrain_at(heights[i], levels(heights)),
            ..before.field[i]
        }));
    }
    assert(first.field@ =~= second.field@);
}

} // verus!
