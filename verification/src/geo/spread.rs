//! Cheapest routes from one tile to every other.

use std::collections::VecDeque;
use vstd::prelude::*;
use crate::geo::cost::{edge_cost, MAX_COST};
use crate::geo::route::{
    adjacent,
    connected,
    cost_between,
    is_least_cost,
    is_route,
    is_route_between,
    lemma_all_connected,
    lemma_neighbour_indices_in_map,
    lemma_reaches_next,
    lemma_reaches_self,
    neighbour_indices,
    neighbours_of,
    reaches,
    route_cost,
};
use crate::hexmap::{HexMap, MAX_AREA};

verus! {

/// Number of tiles whose cost is known.
pub open spec fn known(costs: Seq<Option<u64>>) -> nat
    decreases costs.len(),
{
    if costs.len() == 0 {
        0
    } else {
        known(costs.drop_last()) + if costs.last().is_some() {
            1nat
        } else {
            0nat
        }
    }
}

/// Sum of the known costs.
pub open spec fn total(costs: Seq<Option<u64>>) -> nat
    decreases costs.len(),
{
    if costs.len() == 0 {
        0
    } else {
        total(costs.drop_last()) + match costs.last() {
            Some(d) => d as nat,
            None => 0nat,
        }
    }
}

proof fn lemma_known_bound(costs: Seq<Option<u64>>)
    ensures
        known(costs) <= costs.len(),
    decreases costs.len(),
{
    if costs.len() > 0 {
        lemma_known_bound(costs.drop_last());
    }
}

proof fn lemma_known_update(costs: Seq<Option<u64>>, i: int, v: Option<u64>)
    requires
        0 <= i < costs.len(),
    ensures
        known(costs.update(i, v)) + (if costs[i].is_some() {
            1nat
        } else {
            0nat
        }) == known(costs) + (if v.is_some() {
            1nat
        } else {
            0nat
        }),
        total(costs.update(i, v)) + (match costs[i] {
            Some(d) => d as nat,
            None => 0nat,
        }) == total(costs) + (match v {
            Some(d) => d as nat,
            None => 0nat,
        }),
    decreases costs.len(),
{
    let after = costs.update(i, v);
    if i == costs.len() - 1 {
        assert(after.drop_last() =~= costs.drop_last());
    } else {
        assert(after.drop_last() =~= costs.drop_last().update(i, v));
        lemma_known_update(costs.drop_last(), i, v);
    }
}

/// Whether the step from `a` to `b` can no longer lower the cost of `b`.
pub open spec fn settled(costs: Seq<Option<u64>>, flow: Seq<(i32, i32)>, a: int, b: int) -> bool {
    &&& costs[a].is_some()
    &&& costs[b].is_some()
    &&& costs[b].unwrap() <= costs[a].unwrap() + cost_between(flow, a, b)
}

/// Whether no step from `a` can lower the cost of a neighbour.
pub open spec fn relaxed(
    map: &HexMap,
    flow: Seq<(i32, i32)>,
    costs: Seq<Option<u64>>,
    a: int,
) -> bool {
    forall|t: int|
        0 <= t < neighbour_indices(map, a).len() ==> settled(
            costs,
            flow,
            a,
            #[trigger] neighbour_indices(map, a)[t],
        )
}

/// Whether the cost known of `b`, if any, is that of a route from `seed`
/// and within what so many known tiles allow.
spec fn on_route(map: &HexMap, flow: Seq<(i32, i32)>, seed: int, costs: Seq<Option<u64>>, b: int) -> bool {
    costs[b].is_some() ==> reaches(map, flow, seed, b, costs[b].unwrap() as int)
        && costs[b].unwrap() <= (known(costs) - 1) * MAX_COST
}

/// Whether the tile at place `q` of the frontier is on the map and has a
/// known cost.
spec fn waits(map: &HexMap, costs: Seq<Option<u64>>, frontier: Seq<usize>, q: int) -> bool {
    frontier[q] < map.area() && costs[frontier[q] as int].is_some()
}

/// Whether `a` is relaxed, unless its cost is unknown, it is the open tile,
/// or it waits in the frontier.
spec fn calm(
    map: &HexMap,
    flow: Seq<(i32, i32)>,
    costs: Seq<Option<u64>>,
    frontier: Seq<usize>,
    open: int,
    a: int,
) -> bool {
    costs[a].is_some() && a != open && !frontier.contains(a as usize) ==> relaxed(
        map,
        flow,
        costs,
        a,
    )
}

/// What holds of the costs while they spread from `seed`: each known cost is
/// that of some route, no tile but `open` and those waiting in `frontier`
/// can lower a neighbour's cost, and the costs stay small.
spec fn spreading(
    map: &HexMap,
    flow: Seq<(i32, i32)>,
    seed: int,
    costs: Seq<Option<u64>>,
    frontier: Seq<usize>,
    open: int,
) -> bool {
    &&& costs.len() == map.area()
    &&& 0 <= seed < map.area()
    &&& costs[seed] == Some(0u64)
    &&& forall|q: int| 0 <= q < frontier.len() ==> #[trigger] waits(map, costs, frontier, q)
    &&& forall|b: int| 0 <= b < map.area() ==> #[trigger] on_route(map, flow, seed, costs, b)
    &&& forall|a: int| 0 <= a < map.area() ==> #[trigger] calm(map, flow, costs, frontier, open, a)
}

/// Lowering the cost of a neighbour `b` of the open tile and putting `b` in
/// the frontier keeps what holds while the costs spread.
proof fn lemma_lower(
    map: &HexMap,
    flow: Seq<(i32, i32)>,
    seed: int,
    costs: Seq<Option<u64>>,
    frontier: Seq<usize>,
    current: int,
    b: int,
    c: u64,
)
    requires
        map.sized(),
        flow.len() == map.area(),
        spreading(map, flow, seed, costs, frontier, current),
        0 <= current < map.area(),
        costs[current].is_some(),
        adjacent(map, current, b),
        0 <= b < map.area(),
        c == costs[current].unwrap() + cost_between(flow, current, b),
        cost_between(flow, current, b) >= 1,
        cost_between(flow, current, b) <= MAX_COST,
        costs[b].is_some() ==> c < costs[b].unwrap(),
    ensures
        b != current,
        spreading(
            map,
            flow,
            seed,
            costs.update(b, Some(c)),
            frontier.push(b as usize),
            current,
        ),
        forall|n: int|
            0 <= n < map.area() && #[trigger] settled(costs, flow, current, n) ==> settled(
                costs.update(b, Some(c)),
                flow,
                current,
                n,
            ),
        settled(costs.update(b, Some(c)), flow, current, b),
        costs[b].is_none() ==> known(costs.update(b, Some(c))) == known(costs) + 1,
        costs[b].is_some() ==> known(costs.update(b, Some(c))) == known(costs) && total(
            costs.update(b, Some(c)),
        ) < total(costs),
{
    let after = costs.update(b, Some(c));
    let queue = frontier.push(b as usize);
    lemma_known_update(costs, b, Some(c));
    assert(on_route(map, flow, seed, costs, current));
    lemma_reaches_next(map, flow, seed, current, costs[current].unwrap() as int, b);
    assert(on_route(map, flow, seed, costs, b));
    assert(on_route(map, flow, seed, costs, seed));
    assert(b != current);
    assert(known(after) >= known(costs));
    let slack = (known(costs) - 1) * MAX_COST;
    let room = (known(after) - 1) * MAX_COST;
    assert(slack <= room) by (nonlinear_arith)
        requires
            known(after) >= known(costs),
            slack == (known(costs) - 1) * MAX_COST,
            room == (known(after) - 1) * MAX_COST,
    ;
    if costs[b].is_none() {
        assert(slack + MAX_COST == room) by (nonlinear_arith)
            requires
                known(after) == known(costs) + 1,
                slack == (known(costs) - 1) * MAX_COST,
                room == (known(after) - 1) * MAX_COST,
        ;
    }
    assert forall|q: int| 0 <= q < queue.len() implies #[trigger] waits(map, after, queue, q) by {
        if q < frontier.len() {
            assert(waits(map, costs, frontier, q));
        }
    }
    assert forall|n: int| 0 <= n < map.area() implies #[trigger] on_route(
        map,
        flow,
        seed,
        after,
        n,
    ) by {
        assert(on_route(map, flow, seed, costs, n));
    }
    assert forall|a: int| 0 <= a < map.area() implies #[trigger] calm(
        map,
        flow,
        after,
        queue,
        current,
        a,
    ) by {
        if after[a].is_some() && a != current && !queue.contains(a as usize) {
            assert(queue[frontier.len() as int] == b as usize);
            assert(a != b);
            if frontier.contains(a as usize) {
                let q = choose|q: int| 0 <= q < frontier.len() && frontier[q] == a as usize;
                assert(queue[q] == a as usize);
            }
            assert(calm(map, flow, costs, frontier, current, a));
            assert(relaxed(map, flow, costs, a));
            lemma_neighbour_indices_in_map(map, a);
            assert forall|t: int| 0 <= t < neighbour_indices(map, a).len() implies settled(
                after,
                flow,
                a,
                #[trigger] neighbour_indices(map, a)[t],
            ) by {
                assert(settled(costs, flow, a, neighbour_indices(map, a)[t]));
            }
        }
    }
}

/// Once no tile can lower a neighbour's cost, no route from the seed is
/// cheaper than the cost known at its end.
proof fn lemma_route_bound(
    map: &HexMap,
    flow: Seq<(i32, i32)>,
    seed: int,
    costs: Seq<Option<u64>>,
    route: Seq<int>,
)
    requires
        map.sized(),
        spreading(map, flow, seed, costs, Seq::<usize>::empty(), -1),
        is_route(map, route),
        route[0] == seed,
    ensures
        0 <= route.last() < map.area(),
        costs[route.last()].is_some(),
        costs[route.last()].unwrap() <= route_cost(flow, route),
    decreases route.len(),
{
    if route.len() >= 2 {
        let before = route.drop_last();
        assert forall|i: int| 0 <= i < before.len() - 1 implies adjacent(
            map,
            #[trigger] before[i],
            before[i + 1],
        ) by {
            assert(adjacent(map, route[i], route[i + 1]));
        }
        lemma_route_bound(map, flow, seed, costs, before);
        let a = before.last();
        let b = route.last();
        assert(a == route[route.len() - 2]);
        assert(adjacent(map, route[route.len() - 2], route[route.len() - 2 + 1]));
        lemma_neighbour_indices_in_map(map, a);
        let t = choose|t: int|
            0 <= t < neighbour_indices(map, a).len() && neighbour_indices(map, a)[t] == b;
        assert(!Seq::<usize>::empty().contains(a as usize));
        assert(calm(map, flow, costs, Seq::<usize>::empty(), -1, a));
        assert(relaxed(map, flow, costs, a));
        assert(settled(costs, flow, a, neighbour_indices(map, a)[t]));
    }
}

fn unknown_costs(n: usize) -> (costs: Vec<Option<u64>>)
    ensures
        costs.len() == n,
        forall|i: int| 0 <= i < n ==> (#[trigger] costs[i]).is_none(),
        known(costs@) == 0,
        total(costs@) == 0,
{
    let mut costs: Vec<Option<u64>> = Vec::with_capacity(n);
    let mut i: usize = 0;
    while i < n
        invariant
            i <= n,
            costs.len() == i,
            forall|j: int| 0 <= j < i ==> (#[trigger] costs[j]).is_none(),
            known(costs@) == 0,
            total(costs@) == 0,
        decreases n - i,
    {
        let ghost before = costs@;
        costs.push(None);
        assert(costs@.drop_last() =~= before);
        i += 1;
    }
    costs
}

/// The cost of the cheapest route from `seed` to each tile.
pub fn spread(map: &HexMap, flow: &Vec<(i32, i32)>, seed: usize) -> (costs: Vec<u64>)
    requires
        map.wf(),
        flow.len() == map.area(),
        seed < map.area(),
    ensures
        costs.len() == map.area(),
        forall|b: int|
            0 <= b < map.area() ==> is_least_cost(
                map,
                flow@,
                seed as int,
                b,
                #[trigger] costs[b] as int,
            ),
{
    let found = spread_known(map, flow, seed);
    let mut costs: Vec<u64> = Vec::with_capacity(found.len());
    let mut b: usize = 0;
    while b < found.len()
        invariant
            b <= found.len(),
            map.sized(),
            seed < map.area(),
            found.len() == map.area(),
            costs.len() == b,
            forall|c: int|
                0 <= c < map.area() ==> match #[trigger] found[c] {
                    Some(d) => is_least_cost(map, flow@, seed as int, c, d as int),
                    None => !connected(map, seed as int, c),
                },
            forall|c: int|
                0 <= c < b ==> is_least_cost(map, flow@, seed as int, c, #[trigger] costs[c] as int),
        decreases found.len() - b,
    {
        proof {
            lemma_all_connected(map, seed as int, b as int);
        }
        match found[b] {
            Some(d) => {
                costs.push(d);
            },
            None => {
                assert(false);
            },
        }
        b += 1;
    }
    costs
}

/// The cost of the cheapest route from `seed` to each tile, and none for a
/// tile that no route reaches.
fn spread_known(map: &HexMap, flow: &Vec<(i32, i32)>, seed: usize) -> (costs: Vec<Option<u64>>)
    requires
        map.wf(),
        flow.len() == map.area(),
        seed < map.area(),
    ensures
        costs.len() == map.area(),
        forall|b: int|
            0 <= b < map.area() ==> match #[trigger] costs[b] {
                Some(d) => is_least_cost(map, flow@, seed as int, b, d as int),
                None => !connected(map, seed as int, b),
            },
{
    let area = map.field.len();
    let mut costs = unknown_costs(area);
    let ghost blank = costs@;
    costs.set(seed, Some(0));
    let mut frontier: VecDeque<usize> = VecDeque::new();
    frontier.push_back(seed);
    proof {
        lemma_known_update(blank, seed as int, Some(0u64));
        lemma_reaches_self(map, flow@, seed as int);
        assert(frontier@[0] == seed);
        assert forall|a: int| 0 <= a < map.area() implies #[trigger] calm(
            map,
            flow@,
            costs@,
            frontier@,
            -1,
            a,
        ) by {
            if costs@[a].is_some() {
                assert(a == seed);
            }
        }
        assert(waits(map, costs@, frontier@, 0));
        assert forall|b: int| 0 <= b < map.area() implies #[trigger] on_route(
            map,
            flow@,
            seed as int,
            costs@,
            b,
        ) by {
            if costs@[b].is_some() {
                assert(b == seed);
            }
        }
    }
    while frontier.len() > 0
        invariant
            map.wf(),
            flow.len() == map.area(),
            area == map.area(),
            spreading(map, flow@, seed as int, costs@, frontier@, -1),
        decreases area - known(costs@), total(costs@), frontier.len(),
    {
        let ghost known_before = known(costs@);
        let ghost total_before = total(costs@);
        let ghost length_before = frontier.len();
        let ghost waiting = frontier@;
        proof {
            lemma_known_bound(costs@);
        }
        let current = frontier.pop_front().unwrap();
        assert(waiting[0] == current);
        assert(waits(map, costs@, waiting, 0));
        let here = costs[current].unwrap();
        let around = neighbours_of(map, current);
        proof {
            lemma_neighbour_indices_in_map(map, current as int);
            assert forall|a: int| 0 <= a < map.area() implies #[trigger] calm(
                map,
                flow@,
                costs@,
                frontier@,
                current as int,
                a,
            ) by {
                assert(calm(map, flow@, costs@, waiting, -1, a));
                if waiting.contains(a as usize) && a != current {
                    let q = choose|q: int| 0 <= q < waiting.len() && waiting[q] == a as usize;
                    assert(frontier@[q - 1] == a as usize);
                }
            }
            assert forall|q: int| 0 <= q < frontier@.len() implies #[trigger] waits(
                map,
                costs@,
                frontier@,
                q,
            ) by {
                assert(waits(map, costs@, waiting, q + 1));
            }
        }
        let mut t: usize = 0;
        while t < around.len()
            invariant
                t <= around.len(),
                map.wf(),
                flow.len() == map.area(),
                area == map.area(),
                current < area,
                costs@[current as int] == Some(here),
                around.len() == neighbour_indices(map, current as int).len(),
                forall|u: int|
                    0 <= u < around.len() ==> #[trigger] around[u] as int == neighbour_indices(
                        map,
                        current as int,
                    )[u],
                forall|u: int| 0 <= u < around.len() ==> #[trigger] around[u] < map.area(),
                spreading(map, flow@, seed as int, costs@, frontier@, current as int),
                forall|u: int|
                    0 <= u < t ==> settled(
                        costs@,
                        flow@,
                        current as int,
                        #[trigger] neighbour_indices(map, current as int)[u],
                    ),
                known(costs@) > known_before || (known(costs@) == known_before && total(costs@)
                    < total_before) || (known(costs@) == known_before && total(costs@)
                    == total_before && frontier.len() == length_before - 1),
                known(costs@) <= area,
            decreases around.len() - t,
        {
            let b = around[t];
            let step = edge_cost(flow[current], flow[b]);
            proof {
                assert(neighbour_indices(map, current as int)[t as int] == b);
                assert(adjacent(map, current as int, b as int));
                assert(on_route(map, flow@, seed as int, costs@, current as int));
                assert(here <= (known(costs@) - 1) * MAX_COST);
                assert((known(costs@) - 1) * MAX_COST <= MAX_AREA * MAX_COST) by (nonlinear_arith)
                    requires
                        known(costs@) <= area,
                        area <= MAX_AREA,
                ;
            }
            let cost = here + step;
            let lower = match costs[b] {
                Some(old) => cost < old,
                None => true,
            };
            if lower {
                proof {
                    lemma_lower(
                        map,
                        flow@,
                        seed as int,
                        costs@,
                        frontier@,
                        current as int,
                        b as int,
                        cost,
                    );
                    let after = costs@.update(b as int, Some(cost));
                    lemma_known_bound(after);
                    lemma_neighbour_indices_in_map(map, current as int);
                    assert forall|u: int| 0 <= u < t + 1 implies settled(
                        after,
                        flow@,
                        current as int,
                        #[trigger] neighbour_indices(map, current as int)[u],
                    ) by {
                        if u < t {
                            assert(settled(
                                costs@,
                                flow@,
                                current as int,
                                neighbour_indices(map, current as int)[u],
                            ));
                        }
                    }
                }
                costs.set(b, Some(cost));
                frontier.push_back(b);
            }
            t += 1;
        }
        proof {
            assert(relaxed(map, flow@, costs@, current as int));
            assert forall|a: int| 0 <= a < map.area() implies #[trigger] calm(
                map,
                flow@,
                costs@,
                frontier@,
                -1,
                a,
            ) by {
                assert(calm(map, flow@, costs@, frontier@, current as int, a));
            }
        }
    }
    proof {
        assert(frontier@ =~= Seq::<usize>::empty());
        assert forall|b: int| 0 <= b < map.area() implies match #[trigger] costs[b] {
            Some(d) => is_least_cost(map, flow@, seed as int, b, d as int),
            None => !connected(map, seed as int, b),
        } by {
            assert(on_route(map, flow@, seed as int, costs@, b));
            assert forall|route: Seq<int>| #[trigger]
                is_route_between(map, route, seed as int, b) implies costs[b].is_some()
                && costs[b].unwrap() <= route_cost(flow@, route) by {
                lemma_route_bound(map, flow@, seed as int, costs@, route);
            }
        }
    }
    costs
}

} // verus!
