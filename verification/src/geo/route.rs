//! Routes across the map and what they cost.
//!
//! Tiles are named by their index in the field. A route is a walk from tile
//! to neighbouring tile; its cost is the sum of the costs of its steps.

use vstd::prelude::*;
use crate::geo::cost::step_cost;
use crate::hex::{coords, lemma_neighbour_in_map, neighbour, neighbours};
use crate::hexmap::{
    cell_index,
    index_coords,
    lemma_coords_round_trip,
    lemma_index_round_trip,
    HexMap,
};

verus! {

/// Indices of the neighbours of tile `a`, in the order of `neighbours`.
#[verifier::opaque]
pub open spec fn neighbour_indices(map: &HexMap, a: int) -> Seq<int> {
    let c = index_coords(a, map.size_x as int);
    let around = neighbours(c.0, c.1, map.size_x as int, map.size_y as int);
    Seq::new(around.len(), |t: int| cell_index(around[t].0, around[t].1, map.size_x as int))
}

/// Whether tile `b` is a neighbour of tile `a`.
pub open spec fn adjacent(map: &HexMap, a: int, b: int) -> bool {
    0 <= a < map.area() && neighbour_indices(map, a).contains(b)
}

/// A tile of the map has between two and six neighbours, all on the map.
pub proof fn lemma_neighbour_indices_in_map(map: &HexMap, a: int)
    requires
        map.sized(),
        0 <= a < map.area(),
    ensures
        2 <= neighbour_indices(map, a).len() <= 6,
        forall|t: int|
            0 <= t < neighbour_indices(map, a).len() ==> 0 <= #[trigger] neighbour_indices(
                map,
                a,
            )[t] < map.area(),
        forall|t: int|
            #![trigger neighbours(
                index_coords(a, map.size_x as int).0,
                index_coords(a, map.size_x as int).1,
                map.size_x as int,
                map.size_y as int,
            )[t]]
            0 <= t < neighbour_indices(map, a).len() ==> {
                let n = neighbours(
                    index_coords(a, map.size_x as int).0,
                    index_coords(a, map.size_x as int).1,
                    map.size_x as int,
                    map.size_y as int,
                )[t];
                map.has_cell(n.0, n.1)
            },
{
    reveal(neighbour_indices);
    let sx = map.size_x as int;
    let sy = map.size_y as int;
    let c = index_coords(a, sx);
    lemma_index_round_trip(a, sx, sy);
    let around = neighbours(c.0, c.1, sx, sy);
    assert forall|t: int| 0 <= t < around.len() implies map.has_cell(
        #[trigger] around[t].0,
        around[t].1,
    ) && 0 <= cell_index(around[t].0, around[t].1, sx) < map.area() by {
        let below = c.1 != sy - 1;
        let above = c.1 != 0;
        let dir: int = if below {
            if t == 0 {
                0
            } else if t == 1 {
                1
            } else if t == 2 {
                2
            } else if above {
                if t == 3 {
                    3
                } else if t == 4 {
                    4
                } else {
                    5
                }
            } else {
                5
            }
        } else {
            if t == 0 {
                2
            } else if above {
                if t == 1 {
                    3
                } else if t == 2 {
                    4
                } else {
                    5
                }
            } else {
                5
            }
        };
        assert(around[t] == neighbour(c.0, c.1, sx, dir));
        lemma_neighbour_in_map(c.0, c.1, sx, sy, dir);
        lemma_coords_round_trip(around[t].0, around[t].1, sx, sy);
    }
}

/// Indices of the neighbours of tile `i`.
pub fn neighbours_of(map: &HexMap, i: usize) -> (found: Vec<usize>)
    requires
        map.wf(),
        i < map.area(),
    ensures
        found.len() == neighbour_indices(map, i as int).len(),
        forall|t: int|
            0 <= t < found.len() ==> #[trigger] found[t] as int == neighbour_indices(map, i as int)[t],
        forall|t: int| 0 <= t < found.len() ==> #[trigger] found[t] < map.area(),
{
    let hex = map.field[i];
    proof {
        reveal(neighbour_indices);
        lemma_index_round_trip(i as int, map.size_x as int, map.size_y as int);
        lemma_neighbour_indices_in_map(map, i as int);
        assert((hex.x as int, hex.y as int) == index_coords(i as int, map.size_x as int));
        assert(map.size_x <= map.area() && map.size_y <= map.area()) by (nonlinear_arith)
            requires
                1 <= map.size_x,
                1 <= map.size_y,
                map.area() == map.size_x * map.size_y,
        ;
    }
    let around = hex.get_neighbours(map);
    let ghost wanted = neighbours(
        hex.x as int,
        hex.y as int,
        map.size_x as int,
        map.size_y as int,
    );
    let mut found: Vec<usize> = Vec::with_capacity(6);
    let mut t: usize = 0;
    while t < around.len()
        invariant
            t <= around.len(),
            map.sized(),
            i < map.area(),
            coords(around@) == wanted,
            wanted == neighbours(
                index_coords(i as int, map.size_x as int).0,
                index_coords(i as int, map.size_x as int).1,
                map.size_x as int,
                map.size_y as int,
            ),
            around.len() == neighbour_indices(map, i as int).len(),
            forall|u: int| 0 <= u < wanted.len() ==> map.has_cell(#[trigger] wanted[u].0, wanted[u].1),
            found.len() == t,
            forall|u: int|
                0 <= u < t ==> #[trigger] found[u] as int == neighbour_indices(map, i as int)[u],
            forall|u: int| 0 <= u < t ==> #[trigger] found[u] < map.area(),
        decreases around.len() - t,
    {
        let c = around[t];
        proof {
            reveal(neighbour_indices);
            assert(coords(around@)[t as int] == (c.0 as int, c.1 as int));
            assert(map.has_cell(wanted[t as int].0, wanted[t as int].1));
            lemma_coords_round_trip(
                c.0 as int,
                c.1 as int,
                map.size_x as int,
                map.size_y as int,
            );
        }
        match map.coords_to_index(c.0, c.1) {
            Some(index) => {
                found.push(index);
            },
            None => {
                assert(false);
            },
        }
        t += 1;
    }
    found
}

/// Whether `route` walks from tile to neighbouring tile on the map.
pub open spec fn is_route(map: &HexMap, route: Seq<int>) -> bool {
    &&& route.len() >= 1
    &&& 0 <= route[0] < map.area()
    &&& forall|i: int| 0 <= i < route.len() - 1 ==> adjacent(map, #[trigger] route[i], route[i + 1])
}

/// Whether `route` walks from tile `from` to tile `to`.
pub open spec fn is_route_between(map: &HexMap, route: Seq<int>, from: int, to: int) -> bool {
    is_route(map, route) && route[0] == from && route.last() == to
}

/// Cost of the step from tile `a` to tile `b` across the flow field.
pub open spec fn cost_between(flow: Seq<(i32, i32)>, a: int, b: int) -> int {
    step_cost(flow[a], flow[b])
}

/// Sum of the costs of the steps of `route`.
pub open spec fn route_cost(flow: Seq<(i32, i32)>, route: Seq<int>) -> int
    decreases route.len(),
{
    if route.len() <= 1 {
        0
    } else {
        route_cost(flow, route.drop_last()) + cost_between(
            flow,
            route[route.len() - 2],
            route.last(),
        )
    }
}

/// Whether some route from `from` to `to` costs exactly `cost`.
pub open spec fn reaches(map: &HexMap, flow: Seq<(i32, i32)>, from: int, to: int, cost: int) -> bool {
    exists|route: Seq<int>| #[trigger]
        is_route_between(map, route, from, to) && route_cost(flow, route) == cost
}

/// Whether `cost` is the cost of the cheapest route from `from` to `to`.
pub open spec fn is_least_cost(
    map: &HexMap,
    flow: Seq<(i32, i32)>,
    from: int,
    to: int,
    cost: int,
) -> bool {
    &&& reaches(map, flow, from, to, cost)
    &&& forall|route: Seq<int>| #[trigger]
        is_route_between(map, route, from, to) ==> cost <= route_cost(flow, route)
}

/// Whether any route leads from `from` to `to`.
pub open spec fn connected(map: &HexMap, from: int, to: int) -> bool {
    exists|route: Seq<int>| #[trigger] is_route_between(map, route, from, to)
}

/// A tile reaches itself at no cost.
pub proof fn lemma_reaches_self(map: &HexMap, flow: Seq<(i32, i32)>, a: int)
    requires
        0 <= a < map.area(),
    ensures
        reaches(map, flow, a, a, 0),
{
    let route = seq![a];
    assert(is_route_between(map, route, a, a));
    assert(route_cost(flow, route) == 0);
}

/// A route that reaches `a` goes on to any neighbour `b` of `a` for the cost
/// of that step.
pub proof fn lemma_reaches_next(
    map: &HexMap,
    flow: Seq<(i32, i32)>,
    from: int,
    a: int,
    cost: int,
    b: int,
)
    requires
        reaches(map, flow, from, a, cost),
        adjacent(map, a, b),
    ensures
        reaches(map, flow, from, b, cost + cost_between(flow, a, b)),
{
    let route = choose|route: Seq<int>| #[trigger]
        is_route_between(map, route, from, a) && route_cost(flow, route) == cost;
    let longer = route.push(b);
    assert(longer.drop_last() =~= route);
    assert forall|i: int| 0 <= i < longer.len() - 1 implies adjacent(
        map,
        #[trigger] longer[i],
        longer[i + 1],
    ) by {
        if i < route.len() - 1 {
            assert(adjacent(map, route[i], route[i + 1]));
        }
    }
    assert(is_route_between(map, longer, from, b));
    assert(route_cost(flow, longer) == cost + cost_between(flow, a, b));
}

/// The cheapest route has one cost only.
pub proof fn lemma_least_cost_unique(
    map: &HexMap,
    flow: Seq<(i32, i32)>,
    from: int,
    to: int,
    c: int,
    d: int,
)
    requires
        is_least_cost(map, flow, from, to, c),
        is_least_cost(map, flow, from, to, d),
    ensures
        c == d,
{
    let rc = choose|route: Seq<int>| #[trigger]
        is_route_between(map, route, from, to) && route_cost(flow, route) == c;
    let rd = choose|route: Seq<int>| #[trigger]
        is_route_between(map, route, from, to) && route_cost(flow, route) == d;
    assert(is_route_between(map, rc, from, to));
    assert(is_route_between(map, rd, from, to));
}

/// A step leads from a tile to each of its neighbours.
pub proof fn lemma_step_connects(map: &HexMap, a: int, b: int)
    requires
        adjacent(map, a, b),
    ensures
        connected(map, a, b),
{
    let route = seq![a, b];
    assert(is_route_between(map, route, a, b));
}

/// A route to `m` followed by a route from `m` is a route.
pub proof fn lemma_connected_on(map: &HexMap, a: int, m: int, b: int)
    requires
        connected(map, a, m),
        connected(map, m, b),
    ensures
        connected(map, a, b),
{
    let first = choose|route: Seq<int>| #[trigger] is_route_between(map, route, a, m);
    let second = choose|route: Seq<int>| #[trigger] is_route_between(map, route, m, b);
    let rest = second.subrange(1, second.len() as int);
    let whole = first + rest;
    assert forall|i: int| 0 <= i < whole.len() - 1 implies adjacent(
        map,
        #[trigger] whole[i],
        whole[i + 1],
    ) by {
        if i < first.len() - 1 {
            assert(adjacent(map, first[i], first[i + 1]));
        } else {
            let k = i - (first.len() - 1);
            assert(adjacent(map, second[k], second[k + 1]));
        }
    }
    assert(is_route_between(map, whole, a, b));
}

/// Every tile but the first has a neighbour with a lower index, and is the
/// neighbour of a tile with a lower index.
proof fn lemma_lower_neighbour(map: &HexMap, i: int)
    requires
        map.sized(),
        0 < i < map.area(),
    ensures
        exists|j: int| 0 <= j < i && #[trigger] adjacent(map, i, j),
        exists|j: int| 0 <= j < i && #[trigger] adjacent(map, j, i),
{
    reveal(neighbour_indices);
    let sx = map.size_x as int;
    let sy = map.size_y as int;
    let c = index_coords(i, sx);
    let (x, y) = c;
    lemma_index_round_trip(i, sx, sy);
    let around = neighbours(x, y, sx, sy);
    let col = x + crate::hex::half(y);
    if col > 0 {
        // the tile to the left
        let j = i - 1;
        let left = if y != sy - 1 {
            2int
        } else {
            0int
        };
        assert(around[left] == neighbour(x, y, sx, 2));
        assert(around[left] == (x - 1, y));
        assert(cell_index(x - 1, y, sx) == j);
        assert(neighbour_indices(map, i)[left] == j);
        assert(adjacent(map, i, j));
        // and back to the right
        lemma_coords_round_trip(x - 1, y, sx, sy);
        let back = neighbours(x - 1, y, sx, sy);
        let right = back.len() - 1;
        assert(back[right] == neighbour(x - 1, y, sx, 5));
        assert(back[right] == (x, y));
        assert(neighbour_indices(map, j)[right] == i);
        assert(adjacent(map, j, i));
    } else {
        assert(y >= 1) by {
            if y == 0 {
                assert(cell_index(x, y, sx) == i);
                assert(y * sx == 0) by (nonlinear_arith)
                    requires
                        y == 0,
                ;
                assert(i == 0);
            }
        }
        // up to the row above
        let up = if y != sy - 1 {
            3int
        } else {
            1int
        };
        assert(around[up] == neighbour(x, y, sx, 3));
        lemma_neighbour_in_map(x, y, sx, sy, 3);
        let n = neighbour(x, y, sx, 3);
        lemma_coords_round_trip(n.0, n.1, sx, sy);
        let j = cell_index(n.0, n.1, sx);
        assert(j < i) by (nonlinear_arith)
            requires
                j == (y - 1) * sx + (n.0 + crate::hex::half(y - 1)),
                n.0 + crate::hex::half(y - 1) < sx,
                i == y * sx + col,
                col >= 0,
        ;
        assert(neighbour_indices(map, i)[up] == j);
        assert(adjacent(map, i, j));
        // down from the first tile of the row above
        let k = (y - 1) * sx;
        assert(0 <= k < i) by (nonlinear_arith)
            requires
                k == (y - 1) * sx,
                i == y * sx + col,
                col >= 0,
                y >= 1,
                sx >= 1,
        ;
        let fx = -crate::hex::half(y - 1);
        lemma_coords_round_trip(fx, y - 1, sx, sy);
        assert(cell_index(fx, y - 1, sx) == k);
        assert(index_coords(k, sx) == (fx, y - 1));
        let from = neighbours(fx, y - 1, sx, sy);
        if fx == x {
            assert(from[0] == neighbour(fx, y - 1, sx, 0));
            assert(from[0] == (x, y));
            assert(neighbour_indices(map, k)[0] == i);
        } else {
            assert(from[1] == neighbour(fx, y - 1, sx, 1));
            assert(from[1] == (x, y));
            assert(neighbour_indices(map, k)[1] == i);
        }
        assert(adjacent(map, k, i));
    }
}

/// The first tile leads to every tile, and every tile leads to the first.
proof fn lemma_connected_to_first(map: &HexMap, i: int)
    requires
        map.sized(),
        0 <= i < map.area(),
    ensures
        connected(map, 0, i),
        connected(map, i, 0),
    decreases i,
{
    if i == 0 {
        let route = seq![0int];
        assert(is_route_between(map, route, 0, 0));
    } else {
        lemma_lower_neighbour(map, i);
        let down = choose|j: int| 0 <= j < i && #[trigger] adjacent(map, i, j);
        let up = choose|j: int| 0 <= j < i && #[trigger] adjacent(map, j, i);
        lemma_connected_to_first(map, down);
        lemma_connected_to_first(map, up);
        lemma_step_connects(map, i, down);
        lemma_step_connects(map, up, i);
        lemma_connected_on(map, i, down, 0);
        lemma_connected_on(map, 0, up, i);
    }
}

/// The map is of one piece: a route leads from every tile to every other.
pub proof fn lemma_all_connected(map: &HexMap, a: int, b: int)
    requires
        map.sized(),
        0 <= a < map.area(),
        0 <= b < map.area(),
    ensures
        connected(map, a, b),
{
    lemma_connected_to_first(map, a);
    lemma_connected_to_first(map, b);
    lemma_connected_on(map, a, 0, b);
}

} // verus!
