//! The whole-number side of the heights: which tiles lie round a tile, how
//! many particles came to rest on each tile, and sums over a tile's
//! surroundings.

use vstd::prelude::*;
use crate::hex::{coords, spiral, spiral_len};
use crate::hexmap::{lemma_index_round_trip, HexMap};

verus! {

/// Largest radius of a spiral round a tile of a map.
pub const MAX_RADIUS: u32 = 0x0400_0000;

/// Radius within which the drift of the plates presses on a tile: six
/// hundredths of the map's mean size.
pub open spec fn spec_pressure_radius(map: &HexMap) -> int {
    ((map.size_x + map.size_y) / 2) * 6 / 100
}

/// Radius within which the drift of the plates presses on a tile.
pub fn pressure_radius(map: &HexMap) -> (radius: u32)
    requires
        map.sized(),
    ensures
        radius == spec_pressure_radius(map),
        radius <= MAX_RADIUS,
{
    let mean = map.get_avg_size();
    assert(map.size_x <= map.area() && map.size_y <= map.area()) by (nonlinear_arith)
        requires
            1 <= map.size_x,
            1 <= map.size_y,
            map.area() == map.size_x * map.size_y,
    ;
    ((mean as u64) * 6 / 100) as u32
}

/// The indices of those of `around` that name a tile of the map, in order.
pub open spec fn cells_of(map: &HexMap, around: Seq<(int, int)>) -> Seq<usize>
    decreases around.len(),
{
    if around.len() == 0 {
        Seq::empty()
    } else {
        let rest = cells_of(map, around.drop_last());
        match map.index_of(around.last().0, around.last().1) {
            Some(i) => rest.push(i),
            None => rest,
        }
    }
}

/// The tiles of the map in the spiral of `radius` round tile `i`.
pub open spec fn surroundings(map: &HexMap, i: int, radius: nat) -> Seq<usize> {
    cells_of(map, spiral(map.field[i].x as int, map.field[i].y as int, map.size_x as int, radius))
}

/// Every index that `cells_of` gives names a tile, and there are no more of
/// them than coordinates.
pub proof fn lemma_cells_on_map(map: &HexMap, around: Seq<(int, int)>)
    ensures
        cells_of(map, around).len() <= around.len(),
        forall|k: int|
            0 <= k < cells_of(map, around).len() ==> (#[trigger] cells_of(map, around)[k])
                < map.area(),
    decreases around.len(),
{
    if around.len() > 0 {
        lemma_cells_on_map(map, around.drop_last());
    }
}

/// The tiles of the map in the spiral of `radius` round tile `i`: the tile
/// itself, then ring after ring, without the places above the first row and
/// below the last.
pub fn spiral_indices(map: &HexMap, i: usize, radius: u32) -> (found: Vec<usize>)
    requires
        map.wf(),
        i < map.area(),
        radius <= MAX_RADIUS,
        spiral_len(radius as int) <= usize::MAX,
    ensures
        found@ == surroundings(map, i as int, radius as nat),
        forall|k: int| 0 <= k < found.len() ==> #[trigger] found[k] < map.area(),
        found.len() >= 1,
        found[0] == i,
{
    let hex = map.field[i];
    proof {
        lemma_index_round_trip(i as int, map.size_x as int, map.size_y as int);
        assert((hex.x as int, hex.y as int) == crate::hexmap::index_coords(
            i as int,
            map.size_x as int,
        ));
        assert(map.size_x <= map.area()) by (nonlinear_arith)
            requires
                1 <= map.size_x,
                1 <= map.size_y,
                map.area() == map.size_x * map.size_y,
        ;
    }
    let around = hex.get_spiral(map, radius);
    let ghost wanted = coords(around@);
    let mut found: Vec<usize> = Vec::new();
    let mut k: usize = 0;
    assert(wanted.take(0) =~= Seq::<(int, int)>::empty());
    while k < around.len()
        invariant
            k <= around.len(),
            map.sized(),
            wanted == coords(around@),
            found@ == cells_of(map, wanted.take(k as int)),
            found.len() <= k,
        decreases around.len() - k,
    {
        proof {
            assert(wanted.take(k + 1).drop_last() =~= wanted.take(k as int));
            assert(wanted.take(k + 1).last() == (around[k as int].0 as int, around[k as int].1 as int));
        }
        let c = around[k];
        match map.coords_to_index(c.0, c.1) {
            Some(index) => {
                found.push(index);
            },
            None => {},
        }
        k += 1;
    }
    proof {
        assert(wanted.take(around.len() as int) =~= wanted);
        lemma_cells_on_map(map, wanted);
        lemma_centre_first(map, hex.x as int, hex.y as int, radius as nat);
    }
    found
}

/// The spiral round a tile of the map starts with that tile.
proof fn lemma_centre_first(map: &HexMap, x: int, y: int, radius: nat)
    requires
        map.sized(),
        map.has_cell(x, y),
    ensures
        cells_of(map, spiral(x, y, map.size_x as int, radius)).len() >= 1,
        cells_of(map, spiral(x, y, map.size_x as int, radius))[0] == crate::hexmap::cell_index(
            x,
            y,
            map.size_x as int,
        ),
    decreases radius,
{
    crate::hexmap::lemma_coords_round_trip(x, y, map.size_x as int, map.size_y as int);
    if radius == 0 {
        let only = spiral(x, y, map.size_x as int, 0);
        assert(only.drop_last() =~= Seq::<(int, int)>::empty());
        assert(cells_of(map, only.drop_last()) =~= Seq::<usize>::empty());
    } else {
        lemma_centre_first(map, x, y, (radius - 1) as nat);
        lemma_cells_append(
            map,
            spiral(x, y, map.size_x as int, (radius - 1) as nat),
            crate::hex::ring(x, y, map.size_x as int, radius as int),
        );
    }
}

/// The tiles among two rows of coordinates are those among the first
/// followed by those among the second.
pub proof fn lemma_cells_append(map: &HexMap, a: Seq<(int, int)>, b: Seq<(int, int)>)
    ensures
        cells_of(map, a + b) == cells_of(map, a) + cells_of(map, b),
    decreases b.len(),
{
    if b.len() == 0 {
        assert(a + b =~= a);
        assert(cells_of(map, a) + cells_of(map, b) =~= cells_of(map, a));
    } else {
        assert((a + b).drop_last() =~= a + b.drop_last());
        lemma_cells_append(map, a, b.drop_last());
        assert((a + b).last() == b.last());
        assert(cells_of(map, a + b) =~= cells_of(map, a) + cells_of(map, b));
    }
}

/// How many of `hits` name tile `c`.
pub open spec fn hits_on(hits: Seq<usize>, c: int) -> nat
    decreases hits.len(),
{
    if hits.len() == 0 {
        0
    } else {
        hits_on(hits.drop_last(), c) + if hits.last() == c {
            1nat
        } else {
            0nat
        }
    }
}

proof fn lemma_hits_bound(hits: Seq<usize>, c: int)
    ensures
        hits_on(hits, c) <= hits.len(),
    decreases hits.len(),
{
    if hits.len() > 0 {
        lemma_hits_bound(hits.drop_last(), c);
    }
}

/// Counts for each of `area` tiles how many of `hits` name it, and gives
/// the counts with the greatest of them.
pub fn bin_counts(area: usize, hits: &Vec<usize>) -> (binned: (Vec<u32>, u32))
    requires
        hits.len() <= u32::MAX,
        forall|k: int| 0 <= k < hits.len() ==> #[trigger] hits[k] < area,
    ensures
        binned.0.len() == area,
        forall|c: int| 0 <= c < area ==> #[trigger] binned.0[c] == hits_on(hits@, c),
        forall|c: int| 0 <= c < area ==> #[trigger] binned.0[c] <= binned.1,
        binned.1 == 0 || exists|c: int| 0 <= c < area && #[trigger] binned.0[c] == binned.1,
{
    let mut counts: Vec<u32> = Vec::with_capacity(area);
    let mut c: usize = 0;
    while c < area
        invariant
            c <= area,
            counts.len() == c,
            forall|d: int| 0 <= d < c ==> #[trigger] counts[d] == 0,
        decreases area - c,
    {
        counts.push(0);
        c += 1;
    }
    let mut most: u32 = 0;
    let mut k: usize = 0;
    assert(hits@.take(0) =~= Seq::<usize>::empty());
    while k < hits.len()
        invariant
            k <= hits.len(),
            hits.len() <= u32::MAX,
            counts.len() == area,
            forall|j: int| 0 <= j < hits.len() ==> #[trigger] hits[j] < area,
            forall|d: int| 0 <= d < area ==> #[trigger] counts[d] == hits_on(hits@.take(k as int), d),
            forall|d: int| 0 <= d < area ==> #[trigger] counts[d] <= most,
            most == 0 || exists|d: int| 0 <= d < area && #[trigger] counts[d] == most,
        decreases hits.len() - k,
    {
        let at = hits[k];
        proof {
            assert(hits@.take(k + 1).drop_last() =~= hits@.take(k as int));
            lemma_hits_bound(hits@.take(k as int), at as int);
        }
        let ghost before = counts@;
        let ghost top = most;
        let more = counts[at] + 1;
        counts.set(at, more);
        if more > most {
            most = more;
            assert(counts[at as int] == most);
        } else {
            proof {
                if top != 0 {
                    let d = choose|d: int| 0 <= d < area && #[trigger] before[d] == top;
                    if d == at {
                        assert(false);
                    }
                    assert(counts[d] == most);
                }
            }
        }
        k += 1;
    }
    assert(hits@.take(hits.len() as int) =~= hits@);
    let binned = (counts, most);
    proof {
        if most != 0 {
            let d = choose|d: int| 0 <= d < area && #[trigger] binned.0[d] == most;
            assert(binned.0[d] == binned.1);
        }
    }
    binned
}

/// Sum of the values at the tiles `cells`.
pub open spec fn sum_at(values: Seq<u32>, cells: Seq<usize>) -> nat
    decreases cells.len(),
{
    if cells.len() == 0 {
        0
    } else {
        sum_at(values, cells.drop_last()) + values[cells.last() as int] as nat
    }
}

proof fn lemma_sum_bound(values: Seq<u32>, cells: Seq<usize>)
    ensures
        sum_at(values, cells) <= cells.len() * u32::MAX,
    decreases cells.len(),
{
    if cells.len() > 0 {
        lemma_sum_bound(values, cells.drop_last());
        assert((cells.len() - 1) * u32::MAX + u32::MAX == cells.len() * u32::MAX)
            by (nonlinear_arith);
    }
}

/// Sum of `values` over the tiles of the map in the spiral of `radius`
/// round tile `i`, and the number of these tiles: what the mean over the
/// surroundings of a tile is formed of.
pub fn sum_around(map: &HexMap, values: &Vec<u32>, i: usize, radius: u32) -> (total: (u64, usize))
    requires
        map.wf(),
        values.len() == map.area(),
        i < map.area(),
        radius <= MAX_RADIUS,
        spiral_len(radius as int) <= u32::MAX,
    ensures
        total.0 == sum_at(values@, surroundings(map, i as int, radius as nat)),
        total.1 == surroundings(map, i as int, radius as nat).len(),
        total.1 >= 1,
{
    let cells = spiral_indices(map, i, radius);
    proof {
        crate::hex::lemma_ring_spiral_len(
            map.field[i as int].x as int,
            map.field[i as int].y as int,
            map.size_x as int,
            radius as nat,
        );
        lemma_cells_on_map(
            map,
            spiral(
                map.field[i as int].x as int,
                map.field[i as int].y as int,
                map.size_x as int,
                radius as nat,
            ),
        );
    }
    let mut sum: u64 = 0;
    let mut k: usize = 0;
    assert(cells@.take(0) =~= Seq::<usize>::empty());
    while k < cells.len()
        invariant
            k <= cells.len(),
            cells.len() <= u32::MAX,
            values.len() == map.area(),
            forall|j: int| 0 <= j < cells.len() ==> #[trigger] cells[j] < map.area(),
            sum == sum_at(values@, cells@.take(k as int)),
        decreases cells.len() - k,
    {
        proof {
            assert(cells@.take(k + 1).drop_last() =~= cells@.take(k as int));
            lemma_sum_bound(values@, cells@.take(k as int));
            assert(k * u32::MAX + u32::MAX <= u32::MAX * u32::MAX + u32::MAX) by (nonlinear_arith)
                requires
                    k <= u32::MAX,
            ;
        }
        sum = sum + values[cells[k]] as u64;
        k += 1;
    }
    assert(cells@.take(cells.len() as int) =~= cells@);
    (sum, cells.len())
}

/// Number of height units in a height of one.
pub const HEIGHT_UNIT: u32 = 1_000_000;

/// Height of the lowest plate: 0.45.
pub const BASE_HEIGHT: u32 = 450_000;

/// Share of a tile's height that the pressure on it can add or take: 0.45.
pub const PRESS_STRENGTH: u32 = 450_000;

/// Sum of `value` over the tiles `cells`.
pub open spec fn total_at(cells: Seq<usize>, value: spec_fn(int) -> int) -> int
    decreases cells.len(),
{
    if cells.len() == 0 {
        0
    } else {
        total_at(cells.drop_last(), value) + value(cells.last() as int)
    }
}

/// The quotient of `a` by a positive `b`, rounded toward zero.
pub open spec fn quotient(a: int, b: int) -> int {
    if a >= 0 {
        a / b
    } else {
        -((-a) / b)
    }
}

/// A sum over tiles lies between the least and the greatest value, each
/// taken as often as there are tiles.
pub proof fn lemma_total_between(cells: Seq<usize>, value: spec_fn(int) -> int, low: int, high: int)
    requires
        forall|k: int| 0 <= k < cells.len() ==> low <= #[trigger] value(cells[k] as int) <= high,
    ensures
        cells.len() * low <= total_at(cells, value) <= cells.len() * high,
    decreases cells.len(),
{
    if cells.len() > 0 {
        let front = cells.drop_last();
        assert forall|k: int| 0 <= k < front.len() implies low <= #[trigger] value(
            front[k] as int,
        ) <= high by {
            assert(front[k] == cells[k]);
        }
        lemma_total_between(front, value, low, high);
        assert(value(cells[cells.len() - 1] as int) >= low);
        assert((cells.len() - 1) * low + low == cells.len() * low) by (nonlinear_arith);
        assert((cells.len() - 1) * high + high == cells.len() * high) by (nonlinear_arith);
    } else {
        assert(cells.len() * low == 0 && cells.len() * high == 0) by (nonlinear_arith)
            requires
                cells.len() == 0,
        ;
    }
}

/// The mean of values between `low` and `high` lies between them.
pub proof fn lemma_mean_between(total: int, n: int, low: int, high: int)
    requires
        n > 0,
        n * low <= total <= n * high,
        low <= 0 <= high,
    ensures
        low <= quotient(total, n) <= high,
{
    if total >= 0 {
        assert(total / n <= high) by (nonlinear_arith)
            requires
                n > 0,
                0 <= total <= n * high,
        ;
        assert(total / n >= 0) by (nonlinear_arith)
            requires
                n > 0,
                0 <= total,
        ;
    } else {
        assert(n * (-low) == -(n * low)) by (nonlinear_arith);
        assert((-total) / n <= -low) by (nonlinear_arith)
            requires
                n > 0,
                0 <= -total <= n * (-low),
        ;
        assert((-total) / n >= 0) by (nonlinear_arith)
            requires
                n > 0,
                0 <= -total,
        ;
    }
}

/// The first component of the drift of the plate of tile `t`.
pub open spec fn drift_x(ranks: Seq<usize>, drifts: Seq<(i32, i32)>) -> spec_fn(int) -> int {
    |t: int| drifts[ranks[t] as int].0 as int
}

/// The second component of the drift of the plate of tile `t`.
pub open spec fn drift_y(ranks: Seq<usize>, drifts: Seq<(i32, i32)>) -> spec_fn(int) -> int {
    |t: int| drifts[ranks[t] as int].1 as int
}

/// The pressure on tile `i`: the mean drift of the plates over the tiles
/// within `radius`, each component rounded toward zero.
pub open spec fn pressure_at(
    map: &HexMap,
    ranks: Seq<usize>,
    drifts: Seq<(i32, i32)>,
    radius: nat,
    i: int,
) -> (int, int) {
    let cells = surroundings(map, i, radius);
    (
        quotient(total_at(cells, drift_x(ranks, drifts)), cells.len() as int),
        quotient(total_at(cells, drift_y(ranks, drifts)), cells.len() as int),
    )
}

/// The pressure on every tile: the mean drift of the plates over the tiles
/// within the pressure radius. `ranks` names the plate of each tile,
/// `drifts` gives the drift of each plate.
pub fn pressure_field(map: &HexMap, ranks: &Vec<usize>, drifts: &Vec<(i32, i32)>) -> (field: Vec<
    (i32, i32),
>)
    requires
        map.wf(),
        ranks.len() == map.area(),
        forall|t: int| 0 <= t < ranks.len() ==> #[trigger] ranks[t] < drifts.len(),
        spiral_len(spec_pressure_radius(map)) <= usize::MAX,
    ensures
        field.len() == map.area(),
        forall|i: int|
            0 <= i < map.area() ==> (#[trigger] field[i].0 as int, field[i].1 as int)
                == pressure_at(map, ranks@, drifts@, spec_pressure_radius(map) as nat, i),
{
    let area = map.field.len();
    let radius = pressure_radius(map);
    let mut field: Vec<(i32, i32)> = Vec::with_capacity(area);
    let mut i: usize = 0;
    while i < area
        invariant
            i <= area,
            area == map.area(),
            map.wf(),
            ranks.len() == map.area(),
            forall|t: int| 0 <= t < ranks.len() ==> #[trigger] ranks[t] < drifts.len(),
            radius == spec_pressure_radius(map),
            radius <= MAX_RADIUS,
            spiral_len(radius as int) <= usize::MAX,
            field.len() == i,
            forall|j: int|
                0 <= j < i ==> (#[trigger] field[j].0 as int, field[j].1 as int) == pressure_at(
                    map,
                    ranks@,
                    drifts@,
                    radius as nat,
                    j,
                ),
        decreases area - i,
    {
        let cells = spiral_indices(map, i, radius);
        let ghost fx = drift_x(ranks@, drifts@);
        let ghost fy = drift_y(ranks@, drifts@);
        let mut sum_x: i128 = 0;
        let mut sum_y: i128 = 0;
        let mut k: usize = 0;
        proof {
            assert(cells@.take(0) =~= Seq::<usize>::empty());
        }
        while k < cells.len()
            invariant
                k <= cells.len(),
                ranks.len() == map.area(),
                forall|t: int| 0 <= t < ranks.len() ==> #[trigger] ranks[t] < drifts.len(),
                forall|j: int| 0 <= j < cells.len() ==> #[trigger] cells[j] < map.area(),
                fx == drift_x(ranks@, drifts@),
                fy == drift_y(ranks@, drifts@),
                sum_x == total_at(cells@.take(k as int), fx),
                sum_y == total_at(cells@.take(k as int), fy),
                k * i32::MIN <= sum_x <= k * i32::MAX,
                k * i32::MIN <= sum_y <= k * i32::MAX,
            decreases cells.len() - k,
        {
            proof {
                assert(cells@.take(k + 1).drop_last() =~= cells@.take(k as int));
                assert(k * i32::MIN + i32::MIN == (k + 1) * i32::MIN) by (nonlinear_arith);
                assert(k * i32::MAX + i32::MAX == (k + 1) * i32::MAX) by (nonlinear_arith);
                assert(-0x8000_0000 * 0x1_0000_0000_0000_0000 <= k * i32::MIN && k * i32::MAX
                    <= 0x8000_0000 * 0x1_0000_0000_0000_0000) by (nonlinear_arith)
                    requires
                        0 <= k <= 0x1_0000_0000_0000_0000,
                ;
            }
            let drift = drifts[ranks[cells[k]]];
            sum_x = sum_x + drift.0 as i128;
            sum_y = sum_y + drift.1 as i128;
            k += 1;
        }
        let n = cells.len() as i128;
        proof {
            assert(cells@.take(cells.len() as int) =~= cells@);
            lemma_mean_between(sum_x as int, n as int, i32::MIN as int, i32::MAX as int);
            lemma_mean_between(sum_y as int, n as int, i32::MIN as int, i32::MAX as int);
        }
        field.push(((sum_x / n) as i32, (sum_y / n) as i32));
        i += 1;
    }
    field
}

/// Height of a plate before erosion: 0.45 and half of the plate's own
/// height.
pub open spec fn base_height(plate_height: int) -> int {
    BASE_HEIGHT + plate_height / 2
}

/// The height of the plate of tile `t` before erosion.
pub open spec fn plate_base(ranks: Seq<usize>, plate_heights: Seq<u32>) -> spec_fn(int) -> int {
    |t: int| base_height(plate_heights[ranks[t] as int] as int)
}

/// The count of particles on tile `t`.
pub open spec fn count_at(counts: Seq<u32>) -> spec_fn(int) -> int {
    |t: int| counts[t] as int
}

/// The eroded height of tile `i`: the mean height before erosion over the
/// tiles within `reach`, rounded down.
pub open spec fn eroded_at(
    map: &HexMap,
    ranks: Seq<usize>,
    plate_heights: Seq<u32>,
    reach: nat,
    i: int,
) -> int {
    let cells = surroundings(map, i, reach);
    total_at(cells, plate_base(ranks, plate_heights)) / (cells.len() as int)
}

/// The factor, in height units, by which the pressure on tile `i` raises or
/// lowers it: `0.55 + 0.9 d`, where `d` is the mean count of particles on
/// the tile and its six neighbours as a share of `most`, the greatest count
/// on any tile; no particles anywhere give `d = 0`.
pub open spec fn lift_at(map: &HexMap, counts: Seq<u32>, most: int, i: int) -> int {
    let cells = surroundings(map, i, 1);
    if most == 0 {
        HEIGHT_UNIT - PRESS_STRENGTH
    } else {
        total_at(cells, count_at(counts)) * (2 * PRESS_STRENGTH) / (cells.len() * most) + (
        HEIGHT_UNIT - PRESS_STRENGTH)
    }
}

/// The height of tile `i` in height units: its eroded height times its
/// lift, rounded down.
pub open spec fn height_at(
    map: &HexMap,
    ranks: Seq<usize>,
    plate_heights: Seq<u32>,
    reaches: Seq<u32>,
    counts: Seq<u32>,
    most: int,
    i: int,
) -> int {
    eroded_at(map, ranks, plate_heights, reaches[i] as nat, i) * lift_at(map, counts, most, i)
        / (HEIGHT_UNIT as int)
}

/// The height of every tile. `ranks` names the plate of each tile,
/// `plate_heights` gives each plate a height of at most one, `reaches` says
/// how far the erosion of each tile reaches, `counts` tells how many
/// particles came to rest on each tile, none more than `most`.
pub fn synthesize_heights(
    map: &HexMap,
    ranks: &Vec<usize>,
    plate_heights: &Vec<u32>,
    reaches: &Vec<u32>,
    counts: &Vec<u32>,
    most: u32,
) -> (heights: Vec<u32>)
    requires
        map.wf(),
        ranks.len() == map.area(),
        reaches.len() == map.area(),
        counts.len() == map.area(),
        forall|t: int| 0 <= t < ranks.len() ==> #[trigger] ranks[t] < plate_heights.len(),
        forall|p: int| 0 <= p < plate_heights.len() ==> #[trigger] plate_heights[p] <= HEIGHT_UNIT,
        forall|t: int|
            0 <= t < reaches.len() ==> #[trigger] reaches[t] <= MAX_RADIUS && spiral_len(
                reaches[t] as int,
            ) <= u32::MAX,
        forall|t: int| 0 <= t < counts.len() ==> #[trigger] counts[t] <= most,
    ensures
        heights.len() == map.area(),
        forall|i: int|
            0 <= i < map.area() ==> #[trigger] heights[i] == height_at(
                map,
                ranks@,
                plate_heights@,
                reaches@,
                counts@,
                most as int,
                i,
            ),
{
    let area = map.field.len();
    let mut heights: Vec<u32> = Vec::with_capacity(area);
    let mut i: usize = 0;
    while i < area
        invariant
            i <= area,
            area == map.area(),
            map.wf(),
            ranks.len() == map.area(),
            reaches.len() == map.area(),
            counts.len() == map.area(),
            forall|t: int| 0 <= t < ranks.len() ==> #[trigger] ranks[t] < plate_heights.len(),
            forall|p: int|
                0 <= p < plate_heights.len() ==> #[trigger] plate_heights[p] <= HEIGHT_UNIT,
            forall|t: int|
                0 <= t < reaches.len() ==> #[trigger] reaches[t] <= MAX_RADIUS && spiral_len(
                    reaches[t] as int,
                ) <= u32::MAX,
            forall|t: int| 0 <= t < counts.len() ==> #[trigger] counts[t] <= most,
            heights.len() == i,
            forall|j: int|
                0 <= j < i ==> #[trigger] heights[j] == height_at(
                    map,
                    ranks@,
                    plate_heights@,
                    reaches@,
                    counts@,
                    most as int,
                    j,
                ),
        decreases area - i,
    {
        let eroded = erode(map, ranks, plate_heights, i, reaches[i]);
        let lift = lift(map, counts, most, i);
        assert(eroded * lift <= 950_000 * 1_450_000) by (nonlinear_arith)
            requires
                0 <= eroded <= 950_000,
                0 <= lift <= 1_450_000,
        ;
        assert(0 <= eroded * lift) by (nonlinear_arith)
            requires
                0 <= eroded,
                0 <= lift,
        ;
        heights.push((eroded * lift / (HEIGHT_UNIT as u64)) as u32);
        i += 1;
    }
    heights
}

/// The eroded height of tile `i`.
fn erode(map: &HexMap, ranks: &Vec<usize>, plate_heights: &Vec<u32>, i: usize, reach: u32) -> (eroded:
    u64)
    requires
        map.wf(),
        i < map.area(),
        ranks.len() == map.area(),
        forall|t: int| 0 <= t < ranks.len() ==> #[trigger] ranks[t] < plate_heights.len(),
        forall|p: int| 0 <= p < plate_heights.len() ==> #[trigger] plate_heights[p] <= HEIGHT_UNIT,
        reach <= MAX_RADIUS,
        spiral_len(reach as int) <= u32::MAX,
    ensures
        eroded == eroded_at(map, ranks@, plate_heights@, reach as nat, i as int),
        eroded <= 950_000,
{
    let cells = spiral_indices(map, i, reach);
    let ghost value = plate_base(ranks@, plate_heights@);
    proof {
        crate::hex::lemma_ring_spiral_len(
            map.field[i as int].x as int,
            map.field[i as int].y as int,
            map.size_x as int,
            reach as nat,
        );
        lemma_cells_on_map(
            map,
            spiral(
                map.field[i as int].x as int,
                map.field[i as int].y as int,
                map.size_x as int,
                reach as nat,
            ),
        );
        assert(cells@.take(0) =~= Seq::<usize>::empty());
    }
    let mut sum: u64 = 0;
    let mut k: usize = 0;
    while k < cells.len()
        invariant
            k <= cells.len(),
            cells.len() <= u32::MAX,
            ranks.len() == map.area(),
            forall|t: int| 0 <= t < ranks.len() ==> #[trigger] ranks[t] < plate_heights.len(),
            forall|p: int|
                0 <= p < plate_heights.len() ==> #[trigger] plate_heights[p] <= HEIGHT_UNIT,
            forall|j: int| 0 <= j < cells.len() ==> #[trigger] cells[j] < map.area(),
            value == plate_base(ranks@, plate_heights@),
            sum == total_at(cells@.take(k as int), value),
            sum <= k * 950_000,
        decreases cells.len() - k,
    {
        proof {
            assert(cells@.take(k + 1).drop_last() =~= cells@.take(k as int));
            assert(k * 950_000 + 950_000 <= 0x1_0000_0000 * 950_000) by (nonlinear_arith)
                requires
                    k < 0x1_0000_0000,
            ;
        }
        let base = BASE_HEIGHT as u64 + (plate_heights[ranks[cells[k]]] / 2) as u64;
        sum = sum + base;
        k += 1;
    }
    proof {
        assert(cells@.take(cells.len() as int) =~= cells@);
        assert(sum as int / (cells.len() as int) <= 950_000) by (nonlinear_arith)
            requires
                0 <= sum <= cells.len() * 950_000,
                cells.len() > 0,
        ;
    }
    sum / (cells.len() as u64)
}

/// The lift of tile `i` in height units.
fn lift(map: &HexMap, counts: &Vec<u32>, most: u32, i: usize) -> (lift: u64)
    requires
        map.wf(),
        i < map.area(),
        counts.len() == map.area(),
        forall|t: int| 0 <= t < counts.len() ==> #[trigger] counts[t] <= most,
    ensures
        lift == lift_at(map, counts@, most as int, i as int),
        lift <= 1_450_000,
{
    if most == 0 {
        return (HEIGHT_UNIT - PRESS_STRENGTH) as u64;
    }
    let (sum, n) = sum_around(map, counts, i, 1);
    let ghost cells = surroundings(map, i as int, 1);
    proof {
        lemma_sum_is_total(counts@, cells);
        lemma_cells_on_map(
            map,
            spiral(
                map.field[i as int].x as int,
                map.field[i as int].y as int,
                map.size_x as int,
                1,
            ),
        );
        assert forall|k: int| 0 <= k < cells.len() implies 0 <= #[trigger] count_at(counts@)(
            cells[k] as int,
        ) <= most by {
            assert(counts[cells[k] as int] <= most);
        }
        lemma_total_between(cells, count_at(counts@), 0, most as int);
        crate::hex::lemma_ring_spiral_len(
            map.field[i as int].x as int,
            map.field[i as int].y as int,
            map.size_x as int,
            1,
        );
        assert(n <= 7);
        assert(n * most <= 7 * 0x1_0000_0000) by (nonlinear_arith)
            requires
                0 < n <= 7,
                0 < most < 0x1_0000_0000,
        ;
        assert(n * most > 0) by (nonlinear_arith)
            requires
                0 < n,
                0 < most,
        ;
        assert(sum * 900_000 <= 7 * 0x1_0000_0000 * 900_000) by (nonlinear_arith)
            requires
                0 <= sum <= n * most,
                n * most <= 7 * 0x1_0000_0000,
        ;
        assert((sum * 900_000) as int / (n * most) as int <= 900_000) by (nonlinear_arith)
            requires
                0 <= sum <= n * most,
                n * most > 0,
        ;
    }
    let share = sum * (2 * PRESS_STRENGTH as u64) / (n as u64 * most as u64);
    share + (HEIGHT_UNIT - PRESS_STRENGTH) as u64
}

/// The sum of the counts over tiles is their total.
proof fn lemma_sum_is_total(values: Seq<u32>, cells: Seq<usize>)
    ensures
        sum_at(values, cells) == total_at(cells, count_at(values)),
    decreases cells.len(),
{
    if cells.len() > 0 {
        lemma_sum_is_total(values, cells.drop_last());
    }
}

} // verus!
