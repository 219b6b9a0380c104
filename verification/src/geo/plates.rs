//! The division of the map into plates: every tile goes to the plate whose
//! seed reaches it most cheaply.

use vstd::prelude::*;
use crate::geo::route::{connected, is_least_cost, lemma_least_cost_unique};
use crate::geo::spread::spread;
use crate::hexmap::HexMap;

verus! {

/// Why the map could not be divided into plates.
#[derive(Debug, Clone, Copy, PartialEq, Eq, Structural)]
pub enum GeoError {
    /// No plate was asked for.
    NoPlates,
    /// The flow field does not hold one direction for each tile.
    FlowMismatch,
    /// A seed names no tile of the map.
    SeedOffMap,
    /// A setting is out of range: there are no particles, or more of them
    /// or more tiles round a tile than can be counted.
    OutOfRange,
    /// Tidying left no plate.
    NoSurvivor,
    /// Some tiles without a plate can never be given one.
    Stalled,
}

/// The plate of each tile, and the number of tiles of each plate.
#[derive(Debug, Clone)]
pub struct PlateMap {
    /// For each tile the number of its plate, or none while it has no plate.
    pub labels: Vec<Option<usize>>,
    /// For each plate the number of its tiles.
    pub counts: Vec<usize>,
}

/// How many of `labels` name the plate `p`.
pub open spec fn tally(labels: Seq<Option<usize>>, p: int) -> nat
    decreases labels.len(),
{
    if labels.len() == 0 {
        0
    } else {
        tally(labels.drop_last(), p) + if labels.last() == Some(p as usize) {
            1nat
        } else {
            0nat
        }
    }
}

/// How many of `labels` name no plate.
pub open spec fn holes(labels: Seq<Option<usize>>) -> nat
    decreases labels.len(),
{
    if labels.len() == 0 {
        0
    } else {
        holes(labels.drop_last()) + if labels.last().is_none() {
            1nat
        } else {
            0nat
        }
    }
}

/// No plate has more tiles than there are, nor are there more holes.
pub proof fn lemma_tally_bound(labels: Seq<Option<usize>>, p: int)
    ensures
        tally(labels, p) <= labels.len(),
        holes(labels) <= labels.len(),
    decreases labels.len(),
{
    if labels.len() > 0 {
        lemma_tally_bound(labels.drop_last(), p);
    }
}

/// A plate with a tile counts at least one, and labels with a hole count at
/// least one hole.
pub proof fn lemma_tally_positive(labels: Seq<Option<usize>>, i: int, p: int)
    requires
        0 <= i < labels.len(),
    ensures
        labels[i].is_none() ==> holes(labels) >= 1,
        labels[i] == Some(p as usize) ==> tally(labels, p) >= 1,
    decreases labels.len(),
{
    if i < labels.len() - 1 {
        lemma_tally_positive(labels.drop_last(), i, p);
    }
}

/// Whether the plate `l`, which reaches tile `b` at cost `d`, is not outdone
/// by the plate `q`: `q` reaches `b` at a higher cost, or at the same cost
/// and is not the earlier of the two.
pub open spec fn not_outdone(
    map: &HexMap,
    flow: Seq<(i32, i32)>,
    seeds: Seq<usize>,
    b: int,
    l: int,
    d: int,
    q: int,
) -> bool {
    forall|dq: int| #[trigger]
        is_least_cost(map, flow, seeds[q] as int, b, dq) ==> d < dq || (d == dq && l <= q)
}

/// Whether `l` is the plate of lowest cost at tile `b`, and the earliest of
/// those with that cost.
pub open spec fn is_nearest_plate(
    map: &HexMap,
    flow: Seq<(i32, i32)>,
    seeds: Seq<usize>,
    b: int,
    l: int,
) -> bool {
    &&& 0 <= l < seeds.len()
    &&& exists|d: int| #[trigger]
        is_least_cost(map, flow, seeds[l] as int, b, d) && forall|q: int|
            0 <= q < seeds.len() ==> #[trigger] not_outdone(map, flow, seeds, b, l, d, q)
}

/// Only one plate is the nearest to a tile.
pub proof fn lemma_nearest_plate_unique(
    map: &HexMap,
    flow: Seq<(i32, i32)>,
    seeds: Seq<usize>,
    b: int,
    l: int,
    m: int,
)
    requires
        is_nearest_plate(map, flow, seeds, b, l),
        is_nearest_plate(map, flow, seeds, b, m),
    ensures
        l == m,
{
    let d = choose|d: int| #[trigger]
        is_least_cost(map, flow, seeds[l] as int, b, d) && forall|q: int|
            0 <= q < seeds.len() ==> #[trigger] not_outdone(map, flow, seeds, b, l, d, q);
    let e = choose|e: int| #[trigger]
        is_least_cost(map, flow, seeds[m] as int, b, e) && forall|q: int|
            0 <= q < seeds.len() ==> #[trigger] not_outdone(map, flow, seeds, b, m, e, q);
    assert(not_outdone(map, flow, seeds, b, l, d, m));
    assert(not_outdone(map, flow, seeds, b, m, e, l));
    assert(is_least_cost(map, flow, seeds[m] as int, b, e));
    assert(is_least_cost(map, flow, seeds[l] as int, b, d));
}

/// What holds of tile `b` once the first `n` plates have been tried.
spec fn leading(
    map: &HexMap,
    flow: Seq<(i32, i32)>,
    seeds: Seq<usize>,
    n: int,
    b: int,
    label: Option<usize>,
    best: Option<u64>,
) -> bool {
    match label {
        Some(l) => {
            &&& l < n
            &&& best.is_some()
            &&& is_least_cost(map, flow, seeds[l as int] as int, b, best.unwrap() as int)
            &&& forall|q: int|
                0 <= q < n ==> #[trigger] not_outdone(
                    map,
                    flow,
                    seeds,
                    b,
                    l as int,
                    best.unwrap() as int,
                    q,
                )
        },
        None => {
            &&& best.is_none()
            &&& forall|q: int| 0 <= q < n ==> !#[trigger] connected(map, seeds[q] as int, b)
        },
    }
}

/// Trying one more plate at tile `b` keeps the best plate so far, unless the
/// new plate reaches `b` and does so more cheaply.
proof fn lemma_try_plate(
    map: &HexMap,
    flow: Seq<(i32, i32)>,
    seeds: Seq<usize>,
    n: int,
    b: int,
    label: Option<usize>,
    best: Option<u64>,
    offer: Option<u64>,
)
    requires
        0 <= n < seeds.len(),
        n <= usize::MAX,
        leading(map, flow, seeds, n, b, label, best),
        match offer {
            Some(d) => is_least_cost(map, flow, seeds[n] as int, b, d as int),
            None => !connected(map, seeds[n] as int, b),
        },
    ensures
        offer.is_some() && (best.is_none() || offer.unwrap() < best.unwrap()) ==> leading(
            map,
            flow,
            seeds,
            n + 1,
            b,
            Some(n as usize),
            offer,
        ),
        !(offer.is_some() && (best.is_none() || offer.unwrap() < best.unwrap())) ==> leading(
            map,
            flow,
            seeds,
            n + 1,
            b,
            label,
            best,
        ),
{
    let take = offer.is_some() && (best.is_none() || offer.unwrap() < best.unwrap());
    if take {
        let d = offer.unwrap() as int;
        assert forall|q: int| 0 <= q < n + 1 implies #[trigger] not_outdone(
            map,
            flow,
            seeds,
            b,
            n,
            d,
            q,
        ) by {
            assert forall|dq: int| #[trigger]
                is_least_cost(map, flow, seeds[q] as int, b, dq) implies d < dq || (d == dq && n
                <= q) by {
                if q == n {
                    lemma_least_cost_unique(map, flow, seeds[n] as int, b, d, dq);
                } else {
                    match label {
                        Some(l) => {
                            assert(not_outdone(
                                map,
                                flow,
                                seeds,
                                b,
                                l as int,
                                best.unwrap() as int,
                                q,
                            ));
                        },
                        None => {
                            assert(!connected(map, seeds[q] as int, b));
                            lemma_least_is_connected(map, flow, seeds[q] as int, b, dq);
                        },
                    }
                }
            }
        }
    } else {
        match label {
            Some(l) => {
                assert forall|q: int| 0 <= q < n + 1 implies #[trigger] not_outdone(
                    map,
                    flow,
                    seeds,
                    b,
                    l as int,
                    best.unwrap() as int,
                    q,
                ) by {
                    if q == n {
                        assert forall|dq: int| #[trigger]
                            is_least_cost(map, flow, seeds[q] as int, b, dq) implies best.unwrap()
                            < dq || (best.unwrap() == dq && l <= q) by {
                            match offer {
                                Some(d) => {
                                    lemma_least_cost_unique(
                                        map,
                                        flow,
                                        seeds[n] as int,
                                        b,
                                        d as int,
                                        dq,
                                    );
                                },
                                None => {
                                    lemma_least_is_connected(map, flow, seeds[q] as int, b, dq);
                                },
                            }
                        }
                    } else {
                        assert(not_outdone(
                            map,
                            flow,
                            seeds,
                            b,
                            l as int,
                            best.unwrap() as int,
                            q,
                        ));
                    }
                }
            },
            None => {
                if offer.is_some() {
                    assert(false);
                }
            },
        }
    }
}

/// A tile that is reached at a least cost is reached.
proof fn lemma_least_is_connected(map: &HexMap, flow: Seq<(i32, i32)>, from: int, to: int, d: int)
    requires
        is_least_cost(map, flow, from, to, d),
    ensures
        connected(map, from, to),
{
    let route = choose|route: Seq<int>| #[trigger]
        crate::geo::route::is_route_between(map, route, from, to)
            && crate::geo::route::route_cost(flow, route) == d;
    assert(crate::geo::route::is_route_between(map, route, from, to));
}

impl PlateMap {
    /// Every label names a plate, and each plate's count is the number of
    /// tiles that carry its label.
    pub open spec fn wf(&self) -> bool {
        &&& forall|b: int|
            0 <= b < self.labels.len() && (#[trigger] self.labels[b]).is_some()
                ==> self.labels[b].unwrap() < self.counts.len()
        &&& forall|p: int|
            0 <= p < self.counts.len() ==> #[trigger] self.counts[p] == tally(self.labels@, p)
    }

    /// Whether every tile has a plate.
    pub open spec fn complete(&self) -> bool {
        forall|b: int| 0 <= b < self.labels.len() ==> (#[trigger] self.labels[b]).is_some()
    }
}

/// For each of `plates` plates the number of `labels` that name it.
pub fn count_tiles(labels: &Vec<Option<usize>>, plates: usize) -> (counts: Vec<usize>)
    ensures
        counts.len() == plates,
        forall|p: int| 0 <= p < plates ==> #[trigger] counts[p] == tally(labels@, p),
{
    let mut counts: Vec<usize> = Vec::with_capacity(plates);
    let mut p: usize = 0;
    while p < plates
        invariant
            p <= plates,
            counts.len() == p,
            forall|q: int| 0 <= q < p ==> #[trigger] counts[q] == 0,
        decreases plates - p,
    {
        counts.push(0);
        p += 1;
    }
    let mut b: usize = 0;
    assert(labels@.take(0) =~= Seq::<Option<usize>>::empty());
    while b < labels.len()
        invariant
            b <= labels.len(),
            counts.len() == plates,
            forall|q: int| 0 <= q < plates ==> #[trigger] counts[q] == tally(labels@.take(b as int), q),
        decreases labels.len() - b,
    {
        proof {
            assert(labels@.take(b + 1).drop_last() =~= labels@.take(b as int));
        }
        match labels[b] {
            Some(l) => {
                if l < plates {
                    proof {
                        lemma_tally_bound(labels@.take(b as int), l as int);
                    }
                    let more = counts[l] + 1;
                    counts.set(l, more);
                }
            },
            None => {},
        }
        b += 1;
    }
    assert(labels@.take(labels.len() as int) =~= labels@);
    counts
}

/// Divides the map among the plates seeded at `seeds`: each tile goes to the
/// plate that reaches it at the lowest cost across `flow`, the earlier plate
/// where two reach it at the same cost.
pub fn assign_plates(map: &HexMap, flow: &Vec<(i32, i32)>, seeds: &Vec<usize>) -> (plates: Result<
    PlateMap,
    GeoError,
>)
    requires
        map.wf(),
    ensures
        match plates {
            Ok(found) => {
                &&& seeds.len() > 0
                &&& flow.len() == map.area()
                &&& forall|p: int| 0 <= p < seeds.len() ==> seeds[p] < map.area()
                &&& found.wf()
                &&& found.complete()
                &&& found.labels.len() == map.area()
                &&& found.counts.len() == seeds.len()
                &&& forall|b: int|
                    0 <= b < map.area() ==> is_nearest_plate(
                        map,
                        flow@,
                        seeds@,
                        b,
                        (#[trigger] found.labels[b]).unwrap() as int,
                    )
            },
            Err(GeoError::NoPlates) => seeds.len() == 0,
            Err(GeoError::FlowMismatch) => seeds.len() > 0 && flow.len() != map.area(),
            Err(GeoError::SeedOffMap) => {
                &&& seeds.len() > 0
                &&& flow.len() == map.area()
                &&& exists|p: int| 0 <= p < seeds.len() && #[trigger] seeds[p] >= map.area()
            },
            Err(_) => false,
        },
{
    let area = map.field.len();
    if seeds.len() == 0 {
        return Err(GeoError::NoPlates);
    }
    if flow.len() != area {
        return Err(GeoError::FlowMismatch);
    }
    let mut p: usize = 0;
    while p < seeds.len()
        invariant
            p <= seeds.len(),
            area == map.area(),
            flow.len() == area,
            forall|q: int| 0 <= q < p ==> seeds[q] < map.area(),
        decreases seeds.len() - p,
    {
        if seeds[p] >= area {
            assert(seeds[p as int] >= map.area());
            return Err(GeoError::SeedOffMap);
        }
        p += 1;
    }
    let mut labels: Vec<Option<usize>> = Vec::with_capacity(area);
    let mut best: Vec<Option<u64>> = Vec::with_capacity(area);
    let mut b: usize = 0;
    while b < area
        invariant
            b <= area,
            labels.len() == b,
            best.len() == b,
            forall|c: int| 0 <= c < b ==> (#[trigger] labels[c]).is_none() && best[c].is_none(),
        decreases area - b,
    {
        labels.push(None);
        best.push(None);
        b += 1;
    }
    let mut n: usize = 0;
    while n < seeds.len()
        invariant
            n <= seeds.len(),
            map.wf(),
            area == map.area(),
            flow.len() == area,
            labels.len() == area,
            best.len() == area,
            forall|q: int| 0 <= q < seeds.len() ==> seeds[q] < map.area(),
            forall|c: int|
                0 <= c < area ==> #[trigger] leading(
                    map,
                    flow@,
                    seeds@,
                    n as int,
                    c,
                    labels@[c],
                    best@[c],
                ),
        decreases seeds.len() - n,
    {
        let offers = spread(map, flow, seeds[n]);
        let mut c: usize = 0;
        while c < area
            invariant
                c <= area,
                n < seeds.len(),
                area == map.area(),
                labels.len() == area,
                best.len() == area,
                offers.len() == area,
                forall|e: int|
                    0 <= e < map.area() ==> is_least_cost(
                        map,
                        flow@,
                        seeds[n as int] as int,
                        e,
                        #[trigger] offers[e] as int,
                    ),
                forall|e: int|
                    0 <= e < c ==> #[trigger] leading(
                        map,
                        flow@,
                        seeds@,
                        n + 1,
                        e,
                        labels@[e],
                        best@[e],
                    ),
                forall|e: int|
                    c <= e < area ==> #[trigger] leading(
                        map,
                        flow@,
                        seeds@,
                        n as int,
                        e,
                        labels@[e],
                        best@[e],
                    ),
            decreases area - c,
        {
            let offer = Some(offers[c]);
            proof {
                assert(leading(map, flow@, seeds@, n as int, c as int, labels@[c as int], best@[c as int]));
                lemma_try_plate(
                    map,
                    flow@,
                    seeds@,
                    n as int,
                    c as int,
                    labels@[c as int],
                    best@[c as int],
                    offer,
                );
            }
            let take = match best[c] {
                Some(old) => offers[c] < old,
                None => true,
            };
            if take {
                labels.set(c, Some(n));
                best.set(c, offer);
            }
            c += 1;
        }
        n += 1;
    }
    let counts = count_tiles(&labels, seeds.len());
    let found = PlateMap { labels, counts };
    proof {
        assert forall|b: int| 0 <= b < map.area() implies (#[trigger] found.labels[b]).is_some()
            && is_nearest_plate(map, flow@, seeds@, b, found.labels[b].unwrap() as int) by {
            assert(leading(map, flow@, seeds@, seeds.len() as int, b, found.labels@[b], best@[b]));
            if found.labels[b].is_none() {
                crate::geo::route::lemma_all_connected(map, seeds[0] as int, b);
                assert(!connected(map, seeds[0] as int, b));
            }
        }
        assert forall|b: int|
            0 <= b < found.labels.len() && (#[trigger] found.labels[b]).is_some()
                implies found.labels[b].unwrap() < found.counts.len() by {
            assert(leading(map, flow@, seeds@, seeds.len() as int, b, found.labels@[b], best@[b]));
        }
    }
    Ok(found)
}

} // verus!
