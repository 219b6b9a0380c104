//! Tidying the plates: plates too small to matter and plates enclosed by a
//! single other plate are dissolved, and the tiles they leave are handed to
//! the plates around them.

use std::collections::VecDeque;
use vstd::prelude::*;
use crate::geo::plates::{
    count_tiles,
    holes,
    lemma_tally_bound,
    lemma_tally_positive,
    tally,
    GeoError,
    PlateMap,
};
use crate::geo::route::{
    adjacent,
    is_route,
    is_route_between,
    lemma_neighbour_indices_in_map,
    neighbour_indices,
    neighbours_of,
};
use crate::hexmap::HexMap;

verus! {

/// Whether a plate of `count` tiles is below half a percent of `area`.
pub open spec fn is_small(count: int, area: int) -> bool {
    count * 200 < area
}

/// The labels without those of the plates that `counts` shows to be small.
pub open spec fn without_small(labels: Seq<Option<usize>>, counts: Seq<usize>) -> Seq<
    Option<usize>,
> {
    Seq::new(
        labels.len(),
        |b: int|
            match labels[b] {
                Some(l) => if is_small(counts[l as int] as int, labels.len() as int) {
                    None
                } else {
                    Some(l)
                },
                None => None,
            },
    )
}

/// The labels without those of plate `p`.
pub open spec fn without(labels: Seq<Option<usize>>, p: int) -> Seq<Option<usize>> {
    Seq::new(
        labels.len(),
        |b: int|
            if labels[b] == Some(p as usize) {
                None
            } else {
                labels[b]
            },
    )
}

/// Two rows of labels that name plate `p` at the same tiles give it the same
/// count.
pub proof fn lemma_tally_kept(a: Seq<Option<usize>>, b: Seq<Option<usize>>, p: int)
    requires
        a.len() == b.len(),
        forall|i: int| 0 <= i < a.len() ==> (a[i] == Some(p as usize)) == (b[i] == Some(p as usize)),
    ensures
        tally(a, p) == tally(b, p),
    decreases a.len(),
{
    if a.len() > 0 {
        lemma_tally_kept(a.drop_last(), b.drop_last(), p);
    }
}

/// A plate that no label names counts no tile, and the other way round.
pub proof fn lemma_tally_gone(a: Seq<Option<usize>>, p: int)
    ensures
        (forall|i: int| 0 <= i < a.len() ==> a[i] != Some(p as usize)) <==> tally(a, p) == 0,
    decreases a.len(),
{
    if a.len() > 0 {
        lemma_tally_gone(a.drop_last(), p);
        if tally(a, p) == 0 {
            assert forall|i: int| 0 <= i < a.len() implies a[i] != Some(p as usize) by {
                if i < a.len() - 1 {
                    assert(a.drop_last()[i] == a[i]);
                }
            }
        } else {
            if forall|i: int| 0 <= i < a.len() ==> a[i] != Some(p as usize) {
                assert forall|i: int| 0 <= i < a.drop_last().len() implies a.drop_last()[i]
                    != Some(p as usize) by {
                    assert(a.drop_last()[i] == a[i]);
                }
                assert(false);
            }
        }
    }
}

/// Labels without a hole count no hole, and the other way round.
pub proof fn lemma_holes_gone(a: Seq<Option<usize>>)
    ensures
        (forall|i: int| 0 <= i < a.len() ==> a[i].is_some()) <==> holes(a) == 0,
    decreases a.len(),
{
    if a.len() > 0 {
        lemma_holes_gone(a.drop_last());
        if holes(a) == 0 {
            assert forall|i: int| 0 <= i < a.len() implies a[i].is_some() by {
                if i < a.len() - 1 {
                    assert(a.drop_last()[i] == a[i]);
                }
            }
        } else {
            if forall|i: int| 0 <= i < a.len() ==> a[i].is_some() {
                let front = a.drop_last();
                assert forall|i: int| 0 <= i < front.len() implies front[i].is_some() by {
                    assert(front[i] == a[i]);
                }
                assert(false);
            }
        }
    }
}

/// Whether a plate of `count` tiles is below half a percent of `area`.
pub fn small(count: usize, area: usize) -> (s: bool)
    ensures
        s == is_small(count as int, area as int),
{
    (count as u128) * 200 < area as u128
}

/// Dissolves every plate with fewer tiles than half a percent of the map:
/// its tiles lose their label and its count falls to zero.
pub fn dissolve_small(plates: &mut PlateMap)
    requires
        old(plates).wf(),
    ensures
        final(plates).wf(),
        final(plates).labels.len() == old(plates).labels.len(),
        final(plates).labels@ == without_small(old(plates).labels@, old(plates).counts@),
        final(plates).counts.len() == old(plates).counts.len(),
        forall|p: int|
            0 <= p < old(plates).counts.len() ==> #[trigger] final(plates).counts[p] == (if is_small(
                old(plates).counts[p] as int,
                old(plates).labels.len() as int,
            ) {
                0
            } else {
                old(plates).counts[p]
            }),
{
    let area = plates.labels.len();
    let ghost before = plates.labels@;
    let ghost counted = plates.counts@;
    let mut b: usize = 0;
    while b < area
        invariant
            b <= area,
            area == before.len(),
            plates.labels.len() == area,
            plates.counts@ == counted,
            before == old(plates).labels@,
            counted == old(plates).counts@,
            old(plates).wf(),
            forall|c: int|
                0 <= c < b ==> #[trigger] plates.labels[c] == without_small(before, counted)[c],
            forall|c: int| b <= c < area ==> #[trigger] plates.labels[c] == before[c],
        decreases area - b,
    {
        match plates.labels[b] {
            Some(l) => {
                assert(before[b as int].is_some());
                if small(plates.counts[l], area) {
                    plates.labels.set(b, None);
                }
            },
            None => {},
        }
        b += 1;
    }
    assert(plates.labels@ =~= without_small(before, counted));
    let n = plates.counts.len();
    let mut p: usize = 0;
    while p < n
        invariant
            p <= n,
            n == counted.len(),
            plates.counts.len() == n,
            area == before.len(),
            plates.labels@ == without_small(before, counted),
            forall|q: int|
                0 <= q < p ==> #[trigger] plates.counts[q] == (if is_small(
                    counted[q] as int,
                    area as int,
                ) {
                    0
                } else {
                    counted[q]
                }),
            forall|q: int| p <= q < n ==> #[trigger] plates.counts[q] == counted[q],
        decreases n - p,
    {
        if small(plates.counts[p], area) {
            plates.counts.set(p, 0);
        }
        p += 1;
    }
    proof {
        assert forall|q: int| 0 <= q < plates.counts.len() implies #[trigger] plates.counts[q]
            == tally(plates.labels@, q) by {
            if is_small(counted[q] as int, area as int) {
                lemma_tally_gone(plates.labels@, q);
            } else {
                lemma_tally_kept(before, plates.labels@, q);
            }
        }
    }
}

/// Whether every tile of `route` after the first belongs to plate `p`.
pub open spec fn stays_on(labels: Seq<Option<usize>>, p: usize, route: Seq<int>) -> bool {
    forall|i: int| 1 <= i < route.len() ==> labels[#[trigger] route[i]] == Some(p)
}

/// Whether tile `t` is `seed` or is reached from it over tiles of plate `p`.
pub open spec fn in_region(
    map: &HexMap,
    labels: Seq<Option<usize>>,
    seed: int,
    p: usize,
    t: int,
) -> bool {
    exists|route: Seq<int>| #[trigger]
        is_route_between(map, route, seed, t) && stays_on(labels, p, route)
}

/// Whether tile `n`, of plate `q`, lies next to tile `t` of the region that
/// plate `p` has round `seed`.
pub open spec fn meets(
    map: &HexMap,
    labels: Seq<Option<usize>>,
    seed: int,
    p: usize,
    q: usize,
    t: int,
    n: int,
) -> bool {
    adjacent(map, t, n) && in_region(map, labels, seed, p, t) && labels[n] == Some(q)
}

/// Whether the region that plate `p` has round `seed` borders on a tile of
/// another plate `q`.
pub open spec fn touches(
    map: &HexMap,
    labels: Seq<Option<usize>>,
    seed: int,
    p: usize,
    q: usize,
) -> bool {
    q != p && exists|t: int, n: int| #[trigger] meets(map, labels, seed, p, q, t, n)
}

/// Whether the region that plate `p` has round `seed` borders on exactly one
/// other plate.
pub open spec fn is_island(map: &HexMap, labels: Seq<Option<usize>>, seed: int, p: usize) -> bool {
    exists|q: usize| #[trigger]
        touches(map, labels, seed, p, q) && forall|r: usize| #[trigger]
            touches(map, labels, seed, p, r) ==> r == q
}

/// Number of tiles marked.
pub open spec fn marked(marks: Seq<bool>) -> nat
    decreases marks.len(),
{
    if marks.len() == 0 {
        0
    } else {
        marked(marks.drop_last()) + if marks.last() {
            1nat
        } else {
            0nat
        }
    }
}

proof fn lemma_marked_bound(marks: Seq<bool>)
    ensures
        marked(marks) <= marks.len(),
    decreases marks.len(),
{
    if marks.len() > 0 {
        lemma_marked_bound(marks.drop_last());
    }
}

proof fn lemma_marked_update(marks: Seq<bool>, i: int)
    requires
        0 <= i < marks.len(),
        !marks[i],
    ensures
        marked(marks.update(i, true)) == marked(marks) + 1,
    decreases marks.len(),
{
    let after = marks.update(i, true);
    if i == marks.len() - 1 {
        assert(after.drop_last() =~= marks.drop_last());
    } else {
        assert(after.drop_last() =~= marks.drop_last().update(i, true));
        lemma_marked_update(marks.drop_last(), i);
    }
}

/// Whether the plate `q` has been noted as a neighbour.
spec fn noted(first: Option<usize>, several: bool, q: usize) -> bool {
    several || first == Some(q)
}

/// Whether the walk has dealt with tile `n`: marked it if it belongs to
/// plate `p`, noted its plate if it belongs to another.
spec fn seen(
    labels: Seq<Option<usize>>,
    p: usize,
    marks: Seq<bool>,
    first: Option<usize>,
    several: bool,
    n: int,
) -> bool {
    match labels[n] {
        Some(q) => if q == p {
            marks[n]
        } else {
            noted(first, several, q)
        },
        None => true,
    }
}

/// Whether the walk has dealt with every neighbour of tile `t`.
spec fn done(
    map: &HexMap,
    labels: Seq<Option<usize>>,
    p: usize,
    marks: Seq<bool>,
    first: Option<usize>,
    several: bool,
    t: int,
) -> bool {
    forall|k: int|
        0 <= k < neighbour_indices(map, t).len() ==> seen(
            labels,
            p,
            marks,
            first,
            several,
            #[trigger] neighbour_indices(map, t)[k],
        )
}

/// Whether tile `t`, if marked, neither open nor waiting, is done.
spec fn quiet(
    map: &HexMap,
    labels: Seq<Option<usize>>,
    p: usize,
    marks: Seq<bool>,
    first: Option<usize>,
    several: bool,
    frontier: Seq<usize>,
    open: int,
    t: int,
) -> bool {
    marks[t] && t != open && !frontier.contains(t as usize) ==> done(
        map,
        labels,
        p,
        marks,
        first,
        several,
        t,
    )
}

/// Whether tile `t`, if marked, lies in the region.
spec fn sound(
    map: &HexMap,
    labels: Seq<Option<usize>>,
    seed: int,
    p: usize,
    marks: Seq<bool>,
    t: int,
) -> bool {
    marks[t] ==> in_region(map, labels, seed, p, t)
}

/// Whether the tile at place `k` of the frontier is a marked tile of the
/// map.
spec fn queued(map: &HexMap, marks: Seq<bool>, frontier: Seq<usize>, k: int) -> bool {
    frontier[k] < map.area() && marks[frontier[k] as int]
}

/// What holds while the region of plate `p` round `seed` is walked.
spec fn walking(
    map: &HexMap,
    labels: Seq<Option<usize>>,
    seed: int,
    p: usize,
    marks: Seq<bool>,
    first: Option<usize>,
    several: bool,
    frontier: Seq<usize>,
    open: int,
) -> bool {
    &&& labels.len() == map.area()
    &&& marks.len() == map.area()
    &&& 0 <= seed < map.area()
    &&& marks[seed]
    &&& forall|k: int| 0 <= k < frontier.len() ==> #[trigger] queued(map, marks, frontier, k)
    &&& forall|t: int| 0 <= t < map.area() ==> #[trigger] sound(map, labels, seed, p, marks, t)
    &&& forall|t: int|
        0 <= t < map.area() ==> #[trigger] quiet(
            map,
            labels,
            p,
            marks,
            first,
            several,
            frontier,
            open,
            t,
        )
    &&& first.is_some() ==> touches(map, labels, seed, p, first.unwrap())
    &&& first.is_none() ==> !several
    &&& several ==> exists|q: usize, r: usize|
        q != r && #[trigger] touches(map, labels, seed, p, q) && #[trigger] touches(
            map,
            labels,
            seed,
            p,
            r,
        )
}

/// The region goes on from tile `t` to a neighbour of plate `p`.
proof fn lemma_region_next(
    map: &HexMap,
    labels: Seq<Option<usize>>,
    seed: int,
    p: usize,
    t: int,
    n: int,
)
    requires
        in_region(map, labels, seed, p, t),
        adjacent(map, t, n),
        labels[n] == Some(p),
    ensures
        in_region(map, labels, seed, p, n),
{
    let route = choose|route: Seq<int>| #[trigger]
        is_route_between(map, route, seed, t) && stays_on(labels, p, route);
    let longer = route.push(n);
    assert forall|i: int| 0 <= i < longer.len() - 1 implies adjacent(
        map,
        #[trigger] longer[i],
        longer[i + 1],
    ) by {
        if i < route.len() - 1 {
            assert(adjacent(map, route[i], route[i + 1]));
        }
    }
    assert forall|i: int| 1 <= i < longer.len() implies labels[#[trigger] longer[i]] == Some(
        p,
    ) by {
        if i < route.len() {
            assert(labels[route[i]] == Some(p));
        }
    }
    assert(is_route_between(map, longer, seed, n));
}

/// Marking a neighbour `n` of the open tile that belongs to plate `p`, and
/// putting it in the frontier, keeps what holds during the walk.
proof fn lemma_walk_mark(
    map: &HexMap,
    labels: Seq<Option<usize>>,
    seed: int,
    p: usize,
    marks: Seq<bool>,
    first: Option<usize>,
    several: bool,
    frontier: Seq<usize>,
    current: int,
    n: int,
)
    requires
        map.sized(),
        walking(map, labels, seed, p, marks, first, several, frontier, current),
        0 <= current < map.area(),
        marks[current],
        adjacent(map, current, n),
        0 <= n < map.area(),
        labels[n] == Some(p),
        !marks[n],
    ensures
        walking(
            map,
            labels,
            seed,
            p,
            marks.update(n, true),
            first,
            several,
            frontier.push(n as usize),
            current,
        ),
        forall|m: int|
            0 <= m < map.area() && #[trigger] seen(labels, p, marks, first, several, m) ==> seen(
                labels,
                p,
                marks.update(n, true),
                first,
                several,
                m,
            ),
        seen(labels, p, marks.update(n, true), first, several, n),
{
    let after = marks.update(n, true);
    let queue = frontier.push(n as usize);
    assert(sound(map, labels, seed, p, marks, current));
    lemma_region_next(map, labels, seed, p, current, n);
    assert forall|k: int| 0 <= k < queue.len() implies #[trigger] queued(map, after, queue, k) by {
        if k < frontier.len() {
            assert(queued(map, marks, frontier, k));
        }
    }
    assert forall|t: int| 0 <= t < map.area() implies #[trigger] sound(
        map,
        labels,
        seed,
        p,
        after,
        t,
    ) by {
        assert(sound(map, labels, seed, p, marks, t));
    }
    assert forall|t: int| 0 <= t < map.area() implies #[trigger] quiet(
        map,
        labels,
        p,
        after,
        first,
        several,
        queue,
        current,
        t,
    ) by {
        if after[t] && t != current && !queue.contains(t as usize) {
            assert(queue[frontier.len() as int] == n as usize);
            assert(t != n);
            if frontier.contains(t as usize) {
                let k = choose|k: int| 0 <= k < frontier.len() && frontier[k] == t as usize;
                assert(queue[k] == t as usize);
            }
            assert(quiet(map, labels, p, marks, first, several, frontier, current, t));
            lemma_neighbour_indices_in_map(map, t);
            assert forall|k: int| 0 <= k < neighbour_indices(map, t).len() implies seen(
                labels,
                p,
                after,
                first,
                several,
                #[trigger] neighbour_indices(map, t)[k],
            ) by {
                assert(seen(labels, p, marks, first, several, neighbour_indices(map, t)[k]));
            }
        }
    }
}

/// Noting the plate `q` of a neighbour `n` of the open tile keeps what holds
/// during the walk.
proof fn lemma_walk_note(
    map: &HexMap,
    labels: Seq<Option<usize>>,
    seed: int,
    p: usize,
    marks: Seq<bool>,
    first: Option<usize>,
    several: bool,
    frontier: Seq<usize>,
    current: int,
    n: int,
    q: usize,
)
    requires
        map.sized(),
        walking(map, labels, seed, p, marks, first, several, frontier, current),
        0 <= current < map.area(),
        marks[current],
        adjacent(map, current, n),
        0 <= n < map.area(),
        labels[n] == Some(q),
        q != p,
    ensures
        touches(map, labels, seed, p, q),
        first.is_none() ==> walking(
            map,
            labels,
            seed,
            p,
            marks,
            Some(q),
            several,
            frontier,
            current,
        ),
        first.is_some() && first != Some(q) ==> walking(
            map,
            labels,
            seed,
            p,
            marks,
            first,
            true,
            frontier,
            current,
        ),
        forall|m: int|
            0 <= m < map.area() && #[trigger] seen(labels, p, marks, first, several, m) ==> (
            first.is_none() ==> seen(labels, p, marks, Some(q), several, m)) && seen(
                labels,
                p,
                marks,
                first,
                true,
                m,
            ),
{
    assert(sound(map, labels, seed, p, marks, current));
    assert(meets(map, labels, seed, p, q, current, n));
    assert(touches(map, labels, seed, p, q));
    if first.is_none() {
        assert forall|t: int| 0 <= t < map.area() implies #[trigger] quiet(
            map,
            labels,
            p,
            marks,
            Some(q),
            several,
            frontier,
            current,
            t,
        ) by {
            assert(quiet(map, labels, p, marks, first, several, frontier, current, t));
            if marks[t] && t != current && !frontier.contains(t as usize) {
                lemma_neighbour_indices_in_map(map, t);
                assert forall|k: int| 0 <= k < neighbour_indices(map, t).len() implies seen(
                    labels,
                    p,
                    marks,
                    Some(q),
                    several,
                    #[trigger] neighbour_indices(map, t)[k],
                ) by {
                    assert(seen(labels, p, marks, first, several, neighbour_indices(map, t)[k]));
                }
            }
        }
    } else if first != Some(q) {
        assert(touches(map, labels, seed, p, first.unwrap()));
        assert forall|t: int| 0 <= t < map.area() implies #[trigger] quiet(
            map,
            labels,
            p,
            marks,
            first,
            true,
            frontier,
            current,
            t,
        ) by {
            assert(quiet(map, labels, p, marks, first, several, frontier, current, t));
            if marks[t] && t != current && !frontier.contains(t as usize) {
                lemma_neighbour_indices_in_map(map, t);
                assert forall|k: int| 0 <= k < neighbour_indices(map, t).len() implies seen(
                    labels,
                    p,
                    marks,
                    first,
                    true,
                    #[trigger] neighbour_indices(map, t)[k],
                ) by {
                    assert(seen(labels, p, marks, first, several, neighbour_indices(map, t)[k]));
                }
            }
        }
    }
}

/// Once the walk is over every tile of the region is marked.
proof fn lemma_region_marked(
    map: &HexMap,
    labels: Seq<Option<usize>>,
    seed: int,
    p: usize,
    marks: Seq<bool>,
    first: Option<usize>,
    several: bool,
    route: Seq<int>,
)
    requires
        map.sized(),
        walking(map, labels, seed, p, marks, first, several, Seq::<usize>::empty(), -1),
        is_route(map, route),
        route[0] == seed,
        stays_on(labels, p, route),
    ensures
        0 <= route.last() < map.area(),
        marks[route.last()],
    decreases route.len(),
{
    if route.len() >= 2 {
        let before = route.drop_last();
        assert forall|i: int| 0 <= i < before.len() - 1 implies adjacent(
            map,
            #[trigger] before[i],
            before[i + 1],
        ) by {
            assert(adjacent(map, route[i], route[i + 1]));
        }
        assert forall|i: int| 1 <= i < before.len() implies labels[#[trigger] before[i]] == Some(
            p,
        ) by {
            assert(labels[route[i]] == Some(p));
        }
        lemma_region_marked(map, labels, seed, p, marks, first, several, before);
        let a = before.last();
        let b = route.last();
        assert(a == route[route.len() - 2]);
        assert(adjacent(map, route[route.len() - 2], route[route.len() - 2 + 1]));
        lemma_neighbour_indices_in_map(map, a);
        let k = choose|k: int|
            0 <= k < neighbour_indices(map, a).len() && neighbour_indices(map, a)[k] == b;
        assert(!Seq::<usize>::empty().contains(a as usize));
        assert(quiet(map, labels, p, marks, first, several, Seq::<usize>::empty(), -1, a));
        assert(seen(labels, p, marks, first, several, neighbour_indices(map, a)[k]));
        assert(labels[route[route.len() - 1]] == Some(p));
    }
}

/// Once the walk is over every plate that the region touches is noted.
proof fn lemma_touch_noted(
    map: &HexMap,
    labels: Seq<Option<usize>>,
    seed: int,
    p: usize,
    marks: Seq<bool>,
    first: Option<usize>,
    several: bool,
    q: usize,
)
    requires
        map.sized(),
        walking(map, labels, seed, p, marks, first, several, Seq::<usize>::empty(), -1),
        touches(map, labels, seed, p, q),
    ensures
        noted(first, several, q),
{
    let (t, n) = choose|t: int, n: int| #[trigger] meets(map, labels, seed, p, q, t, n);
    let route = choose|route: Seq<int>| #[trigger]
        is_route_between(map, route, seed, t) && stays_on(labels, p, route);
    lemma_region_marked(map, labels, seed, p, marks, first, several, route);
    lemma_neighbour_indices_in_map(map, t);
    let k = choose|k: int|
        0 <= k < neighbour_indices(map, t).len() && neighbour_indices(map, t)[k] == n;
    assert(!Seq::<usize>::empty().contains(t as usize));
    assert(quiet(map, labels, p, marks, first, several, Seq::<usize>::empty(), -1, t));
    assert(seen(labels, p, marks, first, several, neighbour_indices(map, t)[k]));
}

fn unmarked(n: usize) -> (marks: Vec<bool>)
    ensures
        marks.len() == n,
        forall|i: int| 0 <= i < n ==> !#[trigger] marks[i],
        marked(marks@) == 0,
{
    let mut marks: Vec<bool> = Vec::with_capacity(n);
    let mut i: usize = 0;
    while i < n
        invariant
            i <= n,
            marks.len() == i,
            forall|j: int| 0 <= j < i ==> !#[trigger] marks[j],
            marked(marks@) == 0,
        decreases n - i,
    {
        let ghost before = marks@;
        marks.push(false);
        assert(marks@.drop_last() =~= before);
        i += 1;
    }
    marks
}

/// Whether the region that plate `p` has round `seed` borders on exactly one
/// other plate, and so lies enclosed in it.
pub fn is_enclosed(map: &HexMap, labels: &Vec<Option<usize>>, seed: usize, p: usize) -> (island:
    bool)
    requires
        map.wf(),
        labels.len() == map.area(),
        seed < map.area(),
    ensures
        island == is_island(map, labels@, seed as int, p),
{
    let area = map.field.len();
    let mut marks = unmarked(area);
    let ghost blank = marks@;
    marks.set(seed, true);
    let mut frontier: VecDeque<usize> = VecDeque::new();
    frontier.push_back(seed);
    let mut first: Option<usize> = None;
    let mut several = false;
    proof {
        lemma_marked_update(blank, seed as int);
        assert(frontier@[0] == seed);
        assert(queued(map, marks@, frontier@, 0));
        let alone = seq![seed as int];
        assert(is_route_between(map, alone, seed as int, seed as int));
        assert(stays_on(labels@, p, alone));
        assert forall|t: int| 0 <= t < map.area() implies #[trigger] sound(
            map,
            labels@,
            seed as int,
            p,
            marks@,
            t,
        ) by {
            if marks@[t] {
                assert(t == seed);
            }
        }
        assert forall|t: int| 0 <= t < map.area() implies #[trigger] quiet(
            map,
            labels@,
            p,
            marks@,
            first,
            several,
            frontier@,
            -1,
            t,
        ) by {
            if marks@[t] {
                assert(t == seed);
            }
        }
    }
    while frontier.len() > 0
        invariant
            map.wf(),
            area == map.area(),
            walking(map, labels@, seed as int, p, marks@, first, several, frontier@, -1),
        decreases area - marked(marks@), frontier.len(),
    {
        let ghost marked_before = marked(marks@);
        let ghost length_before = frontier.len();
        let ghost waiting = frontier@;
        proof {
            lemma_marked_bound(marks@);
        }
        let current = frontier.pop_front().unwrap();
        assert(waiting[0] == current);
        assert(queued(map, marks@, waiting, 0));
        let around = neighbours_of(map, current);
        proof {
            lemma_neighbour_indices_in_map(map, current as int);
            assert forall|t: int| 0 <= t < map.area() implies #[trigger] quiet(
                map,
                labels@,
                p,
                marks@,
                first,
                several,
                frontier@,
                current as int,
                t,
            ) by {
                assert(quiet(map, labels@, p, marks@, first, several, waiting, -1, t));
                if waiting.contains(t as usize) && t != current {
                    let k = choose|k: int| 0 <= k < waiting.len() && waiting[k] == t as usize;
                    assert(frontier@[k - 1] == t as usize);
                }
            }
            assert forall|k: int| 0 <= k < frontier@.len() implies #[trigger] queued(
                map,
                marks@,
                frontier@,
                k,
            ) by {
                assert(queued(map, marks@, waiting, k + 1));
            }
        }
        let mut i: usize = 0;
        while i < around.len()
            invariant
                i <= around.len(),
                map.wf(),
                area == map.area(),
                current < area,
                marks@[current as int],
                around.len() == neighbour_indices(map, current as int).len(),
                forall|u: int|
                    0 <= u < around.len() ==> #[trigger] around[u] as int == neighbour_indices(
                        map,
                        current as int,
                    )[u],
                forall|u: int| 0 <= u < around.len() ==> #[trigger] around[u] < map.area(),
                walking(
                    map,
                    labels@,
                    seed as int,
                    p,
                    marks@,
                    first,
                    several,
                    frontier@,
                    current as int,
                ),
                forall|u: int|
                    0 <= u < i ==> seen(
                        labels@,
                        p,
                        marks@,
                        first,
                        several,
                        #[trigger] neighbour_indices(map, current as int)[u],
                    ),
                marked(marks@) > marked_before || (marked(marks@) == marked_before
                    && frontier.len() == length_before - 1),
                marked(marks@) <= area,
            decreases around.len() - i,
        {
            let n = around[i];
            proof {
                assert(neighbour_indices(map, current as int)[i as int] == n);
                assert(adjacent(map, current as int, n as int));
                lemma_neighbour_indices_in_map(map, current as int);
            }
            match labels[n] {
                Some(q) => {
                    if q == p {
                        if !marks[n] {
                            proof {
                                lemma_walk_mark(
                                    map,
                                    labels@,
                                    seed as int,
                                    p,
                                    marks@,
                                    first,
                                    several,
                                    frontier@,
                                    current as int,
                                    n as int,
                                );
                                lemma_marked_update(marks@, n as int);
                                lemma_marked_bound(marks@.update(n as int, true));
                                let after = marks@.update(n as int, true);
                                assert forall|u: int| 0 <= u < i + 1 implies seen(
                                    labels@,
                                    p,
                                    after,
                                    first,
                                    several,
                                    #[trigger] neighbour_indices(map, current as int)[u],
                                ) by {
                                    if u < i {
                                        assert(seen(
                                            labels@,
                                            p,
                                            marks@,
                                            first,
                                            several,
                                            neighbour_indices(map, current as int)[u],
                                        ));
                                    }
                                }
                            }
                            frontier.push_back(n);
                            marks.set(n, true);
                        }
                    } else {
                        proof {
                            lemma_walk_note(
                                map,
                                labels@,
                                seed as int,
                                p,
                                marks@,
                                first,
                                several,
                                frontier@,
                                current as int,
                                n as int,
                                q,
                            );
                            assert forall|u: int| 0 <= u < i implies (first.is_none() ==> seen(
                                labels@,
                                p,
                                marks@,
                                Some(q),
                                several,
                                #[trigger] neighbour_indices(map, current as int)[u],
                            )) && seen(
                                labels@,
                                p,
                                marks@,
                                first,
                                true,
                                neighbour_indices(map, current as int)[u],
                            ) by {
                                assert(seen(
                                    labels@,
                                    p,
                                    marks@,
                                    first,
                                    several,
                                    neighbour_indices(map, current as int)[u],
                                ));
                            }
                        }
                        match first {
                            None => {
                                first = Some(q);
                            },
                            Some(other) => {
                                if other != q {
                                    several = true;
                                }
                            },
                        }
                    }
                },
                None => {},
            }
            i += 1;
        }
        proof {
            assert(done(map, labels@, p, marks@, first, several, current as int));
            assert forall|t: int| 0 <= t < map.area() implies #[trigger] quiet(
                map,
                labels@,
                p,
                marks@,
                first,
                several,
                frontier@,
                -1,
                t,
            ) by {
                assert(quiet(
                    map,
                    labels@,
                    p,
                    marks@,
                    first,
                    several,
                    frontier@,
                    current as int,
                    t,
                ));
            }
        }
    }
    let island = first.is_some() && !several;
    proof {
        assert(frontier@ =~= Seq::<usize>::empty());
        if island {
            let q = first.unwrap();
            assert forall|r: usize| #[trigger] touches(map, labels@, seed as int, p, r) implies r
                == q by {
                lemma_touch_noted(map, labels@, seed as int, p, marks@, first, several, r);
            }
            assert(is_island(map, labels@, seed as int, p));
        } else {
            if is_island(map, labels@, seed as int, p) {
                let q = choose|q: usize| #[trigger]
                    touches(map, labels@, seed as int, p, q) && forall|r: usize| #[trigger]
                        touches(map, labels@, seed as int, p, r) ==> r == q;
                lemma_touch_noted(map, labels@, seed as int, p, marks@, first, several, q);
                if several {
                    let (a, b) = choose|a: usize, b: usize|
                        a != b && #[trigger] touches(map, labels@, seed as int, p, a)
                            && #[trigger] touches(map, labels@, seed as int, p, b);
                    assert(a == q && b == q);
                }
                assert(false);
            }
        }
    }
    island
}

/// The labels once the first `n` plates have been looked at in turn: a plate
/// that still has tiles and whose region round its seed is an island loses
/// all its tiles.
pub open spec fn without_islands(
    map: &HexMap,
    seeds: Seq<usize>,
    labels: Seq<Option<usize>>,
    n: nat,
) -> Seq<Option<usize>>
    decreases n,
{
    if n == 0 {
        labels
    } else {
        let before = without_islands(map, seeds, labels, (n - 1) as nat);
        let p = (n - 1) as usize;
        if tally(before, p as int) != 0 && is_island(map, before, seeds[p as int] as int, p) {
            without(before, p as int)
        } else {
            before
        }
    }
}

/// Dissolves plate `p`: its tiles lose their label and its count falls to
/// zero.
pub fn dissolve(plates: &mut PlateMap, p: usize)
    requires
        old(plates).wf(),
        p < old(plates).counts.len(),
    ensures
        final(plates).wf(),
        final(plates).labels.len() == old(plates).labels.len(),
        final(plates).labels@ == without(old(plates).labels@, p as int),
        final(plates).counts@ == old(plates).counts@.update(p as int, 0),
{
    let area = plates.labels.len();
    let ghost before = plates.labels@;
    let ghost counted = plates.counts@;
    let mut b: usize = 0;
    while b < area
        invariant
            b <= area,
            area == before.len(),
            plates.labels.len() == area,
            plates.counts@ == counted,
            forall|c: int| 0 <= c < b ==> #[trigger] plates.labels[c] == without(before, p as int)[c],
            forall|c: int| b <= c < area ==> #[trigger] plates.labels[c] == before[c],
        decreases area - b,
    {
        match plates.labels[b] {
            Some(l) => {
                if l == p {
                    plates.labels.set(b, None);
                }
            },
            None => {},
        }
        b += 1;
    }
    plates.counts.set(p, 0);
    proof {
        assert(plates.labels@ =~= without(before, p as int));
        assert forall|q: int| 0 <= q < plates.counts.len() implies #[trigger] plates.counts[q]
            == tally(plates.labels@, q) by {
            if q == p {
                lemma_tally_gone(plates.labels@, q);
            } else {
                lemma_tally_kept(before, plates.labels@, q);
            }
        }
    }
}

/// Looks at the plates in turn and dissolves each that still has tiles and
/// whose region round its seed borders on one other plate only.
pub fn dissolve_islands(map: &HexMap, seeds: &Vec<usize>, plates: &mut PlateMap)
    requires
        map.wf(),
        old(plates).wf(),
        old(plates).labels.len() == map.area(),
        old(plates).counts.len() == seeds.len(),
        forall|p: int| 0 <= p < seeds.len() ==> seeds[p] < map.area(),
    ensures
        final(plates).wf(),
        final(plates).counts.len() == seeds.len(),
        final(plates).labels.len() == old(plates).labels.len(),
        final(plates).labels@ == without_islands(
            map,
            seeds@,
            old(plates).labels@,
            seeds.len() as nat,
        ),
{
    let mut p: usize = 0;
    while p < seeds.len()
        invariant
            p <= seeds.len(),
            map.wf(),
            plates.wf(),
            plates.labels.len() == map.area(),
            plates.counts.len() == seeds.len(),
            forall|q: int| 0 <= q < seeds.len() ==> seeds[q] < map.area(),
            plates.labels@ == without_islands(map, seeds@, old(plates).labels@, p as nat),
        decreases seeds.len() - p,
    {
        if plates.counts[p] != 0 {
            if is_enclosed(map, &plates.labels, seeds[p], p) {
                dissolve(plates, p);
            }
        }
        p += 1;
    }
}

/// How many of the tiles `around` belong to plate `q`.
pub open spec fn votes_among(labels: Seq<Option<usize>>, around: Seq<int>, q: usize) -> nat
    decreases around.len(),
{
    if around.len() == 0 {
        0
    } else {
        votes_among(labels, around.drop_last(), q) + if labels[around.last()] == Some(q) {
            1nat
        } else {
            0nat
        }
    }
}

/// How many neighbours of tile `b` belong to plate `q`.
pub open spec fn votes(map: &HexMap, labels: Seq<Option<usize>>, b: int, q: usize) -> nat {
    votes_among(labels, neighbour_indices(map, b), q)
}

/// Whether plate `q` takes the hole at tile `b`: two neighbours of `b` or
/// more belong to it, no plate has more of them, and no earlier plate has as
/// many.
pub open spec fn is_winner(map: &HexMap, labels: Seq<Option<usize>>, b: int, q: usize) -> bool {
    &&& votes(map, labels, b, q) >= 2
    &&& forall|r: usize|
        (#[trigger] votes(map, labels, b, r)) <= votes(map, labels, b, q) && (r < q ==> votes(
            map,
            labels,
            b,
            r,
        ) < votes(map, labels, b, q))
}

/// The label of tile `b` after one pass: a hole goes to the plate that takes
/// it, if there is one, and nothing else changes.
pub open spec fn refilled(map: &HexMap, labels: Seq<Option<usize>>, b: int) -> Option<usize> {
    if labels[b].is_some() {
        labels[b]
    } else if exists|q: usize| is_winner(map, labels, b, q) {
        Some(choose|q: usize| is_winner(map, labels, b, q))
    } else {
        None
    }
}

/// The labels after one pass, in which every hole is judged by the labels
/// before the pass.
pub open spec fn after_pass(map: &HexMap, labels: Seq<Option<usize>>) -> Seq<Option<usize>> {
    Seq::new(labels.len(), |b: int| refilled(map, labels, b))
}

/// The labels after `k` passes.
pub open spec fn after_passes(map: &HexMap, labels: Seq<Option<usize>>, k: nat) -> Seq<
    Option<usize>,
>
    decreases k,
{
    if k == 0 {
        labels
    } else {
        after_pass(map, after_passes(map, labels, (k - 1) as nat))
    }
}

/// Whether the labels are without a hole after `k` passes and not before.
pub open spec fn fills_in(map: &HexMap, labels: Seq<Option<usize>>, k: nat) -> bool {
    &&& holes(after_passes(map, labels, k)) == 0
    &&& forall|j: nat| j < k ==> holes(#[trigger] after_passes(map, labels, j)) > 0
}

/// Whether a pass on the labels after `k` passes, which still have holes,
/// changes nothing.
pub open spec fn stalls_at(map: &HexMap, labels: Seq<Option<usize>>, k: nat) -> bool {
    &&& holes(after_passes(map, labels, k)) > 0
    &&& after_pass(map, after_passes(map, labels, k)) == after_passes(map, labels, k)
}

/// Only one plate can take a hole.
pub proof fn lemma_winner_unique(map: &HexMap, labels: Seq<Option<usize>>, b: int, q: usize, r: usize)
    requires
        is_winner(map, labels, b, q),
        is_winner(map, labels, b, r),
    ensures
        q == r,
{
    let vq = votes(map, labels, b, q);
    let vr = votes(map, labels, b, r);
    assert(vr <= vq && (r < q ==> vr < vq));
    assert(vq <= vr && (q < r ==> vq < vr));
}

/// A plate with a vote among `around` is the plate of one of these tiles.
proof fn lemma_vote_has_voter(labels: Seq<Option<usize>>, around: Seq<int>, q: usize)
    requires
        votes_among(labels, around, q) > 0,
    ensures
        exists|k: int| 0 <= k < around.len() && labels[#[trigger] around[k]] == Some(q),
    decreases around.len(),
{
    if labels[around.last()] == Some(q) {
        assert(labels[around[around.len() - 1]] == Some(q));
    } else {
        lemma_vote_has_voter(labels, around.drop_last(), q);
        let k = choose|k: int|
            0 <= k < around.drop_last().len() && labels[#[trigger] around.drop_last()[k]] == Some(
                q,
            );
        assert(around[k] == around.drop_last()[k]);
    }
}

/// Once a pass changes nothing, no further pass does.
pub proof fn lemma_stalled_stays(map: &HexMap, labels: Seq<Option<usize>>, k: nat, m: nat)
    requires
        stalls_at(map, labels, k),
        k <= m,
    ensures
        after_passes(map, labels, m) == after_passes(map, labels, k),
    decreases m,
{
    if m > k {
        lemma_stalled_stays(map, labels, k, (m - 1) as nat);
    }
}

/// A pass leaves every label in place and so makes no hole.
pub proof fn lemma_pass_keeps(map: &HexMap, labels: Seq<Option<usize>>)
    ensures
        after_pass(map, labels).len() == labels.len(),
        holes(after_pass(map, labels)) <= holes(labels),
        holes(labels) == 0 ==> after_pass(map, labels) == labels,
{
    let next = after_pass(map, labels);
    lemma_holes_fall(labels, next);
    if holes(labels) == 0 {
        lemma_holes_gone(labels);
        assert(next =~= labels);
    }
}

proof fn lemma_holes_fall(a: Seq<Option<usize>>, b: Seq<Option<usize>>)
    requires
        a.len() == b.len(),
        forall|i: int| 0 <= i < a.len() && a[i].is_some() ==> b[i].is_some(),
    ensures
        holes(b) <= holes(a),
    decreases a.len(),
{
    if a.len() > 0 {
        lemma_holes_fall(a.drop_last(), b.drop_last());
    }
}

/// The holes never grow in number from pass to pass.
pub proof fn lemma_holes_never_grow(map: &HexMap, labels: Seq<Option<usize>>, j: nat, k: nat)
    requires
        j <= k,
    ensures
        holes(after_passes(map, labels, k)) <= holes(after_passes(map, labels, j)),
        holes(after_passes(map, labels, j)) == 0 ==> after_passes(map, labels, k) == after_passes(
            map,
            labels,
            j,
        ),
    decreases k,
{
    if k > j {
        lemma_holes_never_grow(map, labels, j, (k - 1) as nat);
        lemma_pass_keeps(map, after_passes(map, labels, (k - 1) as nat));
    }
}

/// Filling converges or it stalls, never both: where a pass changes nothing
/// while holes remain, no number of passes fills them all.
pub proof fn lemma_stalled_never_fills(map: &HexMap, labels: Seq<Option<usize>>, k: nat, m: nat)
    requires
        stalls_at(map, labels, k),
    ensures
        holes(after_passes(map, labels, m)) > 0,
{
    if m >= k {
        lemma_stalled_stays(map, labels, k, m);
    } else {
        lemma_holes_never_grow(map, labels, m, k);
    }
}

/// How many of the tiles `around` belong to plate `q`.
fn count_votes(labels: &Vec<Option<usize>>, around: &Vec<usize>, q: usize) -> (v: usize)
    requires
        forall|k: int| 0 <= k < around.len() ==> #[trigger] around[k] < labels.len(),
    ensures
        v == votes_among(labels@, around@.map_values(|t: usize| t as int), q),
        v <= around.len(),
{
    let ghost tiles = around@.map_values(|t: usize| t as int);
    let mut v: usize = 0;
    let mut k: usize = 0;
    assert(tiles.take(0) =~= Seq::<int>::empty());
    while k < around.len()
        invariant
            k <= around.len(),
            v <= k,
            tiles == around@.map_values(|t: usize| t as int),
            forall|j: int| 0 <= j < around.len() ==> #[trigger] around[j] < labels.len(),
            v == votes_among(labels@, tiles.take(k as int), q),
        decreases around.len() - k,
    {
        proof {
            assert(tiles.take(k + 1).drop_last() =~= tiles.take(k as int));
        }
        match labels[around[k]] {
            Some(l) => {
                if l == q {
                    v += 1;
                }
            },
            None => {},
        }
        k += 1;
    }
    assert(tiles.take(around.len() as int) =~= tiles);
    v
}

/// The plate that takes the hole at tile `b`, if any does.
pub fn winner_of(map: &HexMap, labels: &Vec<Option<usize>>, b: usize) -> (winner: Option<usize>)
    requires
        map.wf(),
        labels.len() == map.area(),
        b < map.area(),
    ensures
        match winner {
            Some(q) => is_winner(map, labels@, b as int, q),
            None => forall|q: usize| !is_winner(map, labels@, b as int, q),
        },
{
    let around = neighbours_of(map, b);
    let ghost tiles = around@.map_values(|t: usize| t as int);
    proof {
        assert(tiles =~= neighbour_indices(map, b as int));
    }
    let mut best: Option<usize> = None;
    let mut most: usize = 1;
    let mut k: usize = 0;
    while k < around.len()
        invariant
            k <= around.len(),
            labels.len() == map.area(),
            tiles == around@.map_values(|t: usize| t as int),
            tiles == neighbour_indices(map, b as int),
            forall|j: int| 0 <= j < around.len() ==> #[trigger] around[j] < map.area(),
            best.is_none() ==> most == 1,
            best.is_some() ==> most >= 2 && most == votes_among(labels@, tiles, best.unwrap()),
            forall|j: int|
                0 <= j < k && (#[trigger] labels[around[j] as int]).is_some() ==> {
                    let r = labels[around[j] as int].unwrap();
                    if best.is_some() {
                        votes_among(labels@, tiles, r) < most || (votes_among(labels@, tiles, r)
                            == most && best.unwrap() <= r)
                    } else {
                        votes_among(labels@, tiles, r) <= 1
                    }
                },
        decreases around.len() - k,
    {
        match labels[around[k]] {
            Some(r) => {
                let v = count_votes(labels, &around, r);
                let better = match best {
                    Some(q) => v > most || (v == most && r < q),
                    None => v > most,
                };
                if better {
                    best = Some(r);
                    most = v;
                }
            },
            None => {},
        }
        k += 1;
    }
    proof {
        match best {
            Some(q) => {
                assert forall|r: usize|
                    (#[trigger] votes(map, labels@, b as int, r)) <= votes(map, labels@, b as int, q)
                        && (r < q ==> votes(map, labels@, b as int, r) < votes(
                        map,
                        labels@,
                        b as int,
                        q,
                    )) by {
                    if votes_among(labels@, tiles, r) > 0 {
                        lemma_vote_has_voter(labels@, tiles, r);
                        let j = choose|j: int|
                            0 <= j < tiles.len() && labels@[#[trigger] tiles[j]] == Some(r);
                        assert(tiles[j] == around[j] as int);
                        assert(labels[around[j] as int].is_some());
                    }
                }
            },
            None => {
                assert forall|q: usize| !is_winner(map, labels@, b as int, q) by {
                    if votes_among(labels@, tiles, q) > 0 {
                        lemma_vote_has_voter(labels@, tiles, q);
                        let j = choose|j: int|
                            0 <= j < tiles.len() && labels@[#[trigger] tiles[j]] == Some(q);
                        assert(tiles[j] == around[j] as int);
                        assert(labels[around[j] as int].is_some());
                    }
                }
            },
        }
    }
    best
}

/// One pass over the holes: each goes to the plate that takes it, judged by
/// the labels before the pass. Gives the new labels and the number of holes
/// filled.
pub fn fill_pass(map: &HexMap, labels: &Vec<Option<usize>>) -> (next: (Vec<Option<usize>>, usize))
    requires
        map.wf(),
        labels.len() == map.area(),
    ensures
        next.0@ == after_pass(map, labels@),
        next.1 + holes(next.0@) == holes(labels@),
        next.1 == 0 ==> next.0@ == labels@,
{
    let area = labels.len();
    let mut next: Vec<Option<usize>> = Vec::with_capacity(area);
    let mut filled: usize = 0;
    let mut b: usize = 0;
    assert(labels@.take(0) =~= Seq::<Option<usize>>::empty());
    while b < area
        invariant
            b <= area,
            area == labels.len(),
            map.wf(),
            labels.len() == map.area(),
            next.len() == b,
            filled <= b,
            forall|c: int| 0 <= c < b ==> #[trigger] next[c] == refilled(map, labels@, c),
            filled + holes(next@) == holes(labels@.take(b as int)),
            filled == 0 ==> next@ == labels@.take(b as int),
        decreases area - b,
    {
        let ghost before = next@;
        proof {
            assert(labels@.take(b + 1).drop_last() =~= labels@.take(b as int));
        }
        match labels[b] {
            Some(l) => {
                next.push(Some(l));
            },
            None => {
                let winner = winner_of(map, labels, b);
                proof {
                    match winner {
                        Some(q) => {
                            let chosen = choose|q: usize| is_winner(map, labels@, b as int, q);
                            lemma_winner_unique(map, labels@, b as int, q, chosen);
                        },
                        None => {},
                    }
                }
                if winner.is_some() {
                    filled += 1;
                }
                next.push(winner);
            },
        }
        proof {
            assert(next@.drop_last() =~= before);
            if filled == 0 {
                assert(next@ =~= labels@.take(b + 1));
            }
        }
        b += 1;
    }
    proof {
        assert(labels@.take(area as int) =~= labels@);
        assert(next@ =~= after_pass(map, labels@));
    }
    (next, filled)
}

/// Number of tiles without a plate.
pub fn count_holes(labels: &Vec<Option<usize>>) -> (n: usize)
    ensures
        n == holes(labels@),
{
    let mut n: usize = 0;
    let mut b: usize = 0;
    assert(labels@.take(0) =~= Seq::<Option<usize>>::empty());
    while b < labels.len()
        invariant
            b <= labels.len(),
            n <= b,
            n == holes(labels@.take(b as int)),
        decreases labels.len() - b,
    {
        proof {
            assert(labels@.take(b + 1).drop_last() =~= labels@.take(b as int));
        }
        if labels[b].is_none() {
            n += 1;
        }
        b += 1;
    }
    assert(labels@.take(labels.len() as int) =~= labels@);
    n
}

/// Hands the tiles without a plate to the plates round them, pass after
/// pass, until none is left. Fails where no tile has a plate, and where a
/// pass changes nothing while holes remain.
pub fn fill_holes(map: &HexMap, plates: PlateMap) -> (filled: Result<PlateMap, GeoError>)
    requires
        map.wf(),
        plates.wf(),
        plates.labels.len() == map.area(),
    ensures
        match filled {
            Ok(full) => {
                &&& full.wf()
                &&& full.complete()
                &&& full.labels.len() == plates.labels.len()
                &&& full.counts.len() == plates.counts.len()
                &&& holes(plates.labels@) < plates.labels.len()
                &&& exists|k: nat|
                    full.labels@ == #[trigger] after_passes(map, plates.labels@, k) && fills_in(
                        map,
                        plates.labels@,
                        k,
                    )
            },
            Err(GeoError::NoSurvivor) => holes(plates.labels@) == plates.labels.len(),
            Err(GeoError::Stalled) => {
                &&& holes(plates.labels@) < plates.labels.len()
                &&& exists|k: nat| #[trigger] stalls_at(map, plates.labels@, k)
            },
            Err(_) => false,
        },
{
    let ghost start = plates.labels@;
    let plate_count = plates.counts.len();
    let mut labels = plates.labels;
    let mut remaining = count_holes(&labels);
    proof {
        lemma_tally_bound(labels@, 0);
    }
    if remaining == labels.len() {
        return Err(GeoError::NoSurvivor);
    }
    let ghost mut passes: nat = 0;
    while remaining > 0
        invariant
            map.wf(),
            start.len() == map.area(),
            start == plates.labels@,
            labels.len() == map.area(),
            labels@ == after_passes(map, start, passes),
            remaining == holes(labels@),
            forall|j: nat| j < passes ==> holes(#[trigger] after_passes(map, start, j)) > 0,
            holes(start) < start.len(),
            forall|b: int|
                0 <= b < labels.len() && (#[trigger] labels[b]).is_some() ==> labels[b].unwrap()
                    < plate_count,
        decreases remaining,
    {
        let (next, filled) = fill_pass(map, &labels);
        if filled == 0 {
            assert(stalls_at(map, start, passes));
            return Err(GeoError::Stalled);
        }
        proof {
            assert forall|b: int| 0 <= b < next.len() && (#[trigger] next[b]).is_some()
                implies next[b].unwrap() < plate_count by {
                if labels[b].is_none() {
                    let q = next[b].unwrap();
                    assert(next[b] == refilled(map, labels@, b));
                    assert(is_winner(map, labels@, b, q));
                    lemma_vote_has_voter(labels@, neighbour_indices(map, b), q);
                    lemma_neighbour_indices_in_map(map, b);
                    let k = choose|k: int|
                        0 <= k < neighbour_indices(map, b).len() && labels@[#[trigger] neighbour_indices(
                            map,
                            b,
                        )[k]] == Some(q);
                    assert(labels[neighbour_indices(map, b)[k]].is_some());
                } else {
                    assert(next[b] == labels[b]);
                }
            }
            passes = passes + 1;
        }
        labels = next;
        remaining = remaining - filled;
    }
    let counts = count_tiles(&labels, plate_count);
    let full = PlateMap { labels, counts };
    proof {
        lemma_holes_gone(full.labels@);
        assert(fills_in(map, start, passes));
    }
    Ok(full)
}

/// The labels once the small plates and then the islands are dissolved.
pub open spec fn trimmed(
    map: &HexMap,
    seeds: Seq<usize>,
    labels: Seq<Option<usize>>,
    counts: Seq<usize>,
) -> Seq<Option<usize>> {
    without_islands(map, seeds, without_small(labels, counts), seeds.len())
}

/// Tidies the plates: dissolves the small ones, then the islands, then hands
/// the tiles left without a plate to the plates round them. Where it
/// succeeds every tile has a plate, and that plate has tiles.
pub fn tidy_plates(map: &HexMap, seeds: &Vec<usize>, plates: PlateMap) -> (tidied: Result<
    PlateMap,
    GeoError,
>)
    requires
        map.wf(),
        plates.wf(),
        plates.labels.len() == map.area(),
        plates.counts.len() == seeds.len(),
        forall|p: int| 0 <= p < seeds.len() ==> seeds[p] < map.area(),
    ensures
        match tidied {
            Ok(full) => {
                &&& full.wf()
                &&& full.complete()
                &&& full.labels.len() == map.area()
                &&& full.counts.len() == seeds.len()
                &&& holes(trimmed(map, seeds@, plates.labels@, plates.counts@)) < map.area()
                &&& forall|b: int|
                    0 <= b < map.area() ==> full.counts[(#[trigger] full.labels[b]).unwrap() as int]
                        > 0
                &&& exists|k: nat|
                    full.labels@ == #[trigger] after_passes(
                        map,
                        trimmed(map, seeds@, plates.labels@, plates.counts@),
                        k,
                    ) && fills_in(map, trimmed(map, seeds@, plates.labels@, plates.counts@), k)
            },
            Err(GeoError::NoSurvivor) => holes(trimmed(map, seeds@, plates.labels@, plates.counts@))
                == map.area(),
            Err(GeoError::Stalled) => {
                &&& holes(trimmed(map, seeds@, plates.labels@, plates.counts@)) < map.area()
                &&& exists|k: nat| #[trigger]
                    stalls_at(map, trimmed(map, seeds@, plates.labels@, plates.counts@), k)
            },
            Err(_) => false,
        },
{
    let ghost given = plates.labels@;
    let ghost counted = plates.counts@;
    let mut plates = plates;
    dissolve_small(&mut plates);
    dissolve_islands(map, seeds, &mut plates);
    assert(plates.labels@ == trimmed(map, seeds@, given, counted));
    let filled = fill_holes(map, plates);
    proof {
        if filled.is_ok() {
            let full = filled.unwrap();
            assert forall|b: int| 0 <= b < map.area() implies full.counts[(
            #[trigger] full.labels[b]).unwrap() as int] > 0 by {
                lemma_tally_positive(full.labels@, b, full.labels[b].unwrap() as int);
            }
        }
    }
    filled
}

/// Number of plates before `p` that have tiles.
pub open spec fn rank_of(counts: Seq<usize>, p: int) -> nat
    decreases p,
{
    if p <= 0 {
        0
    } else {
        rank_of(counts, p - 1) + if counts[p - 1] != 0 {
            1nat
        } else {
            0nat
        }
    }
}

/// A plate with tiles has a lower rank than every later plate, and than the
/// number of plates with tiles.
pub proof fn lemma_rank_rises(counts: Seq<usize>, p: int, q: int)
    requires
        0 <= p < q,
        counts[p] != 0,
    ensures
        rank_of(counts, p) < rank_of(counts, q),
        rank_of(counts, q) <= q,
    decreases q,
{
    lemma_rank_bound(counts, p);
    if q > p + 1 {
        lemma_rank_rises(counts, p, q - 1);
    }
}

proof fn lemma_rank_bound(counts: Seq<usize>, p: int)
    requires
        0 <= p,
    ensures
        rank_of(counts, p) <= p,
    decreases p,
{
    if p > 0 {
        lemma_rank_bound(counts, p - 1);
    }
}

/// Numbers the plates that have tiles from 0 in their order, and gives for
/// each tile the number of its plate, and how many such plates there are.
pub fn rank_tiles(plates: &PlateMap) -> (ranked: (Vec<usize>, usize))
    requires
        plates.wf(),
        plates.complete(),
    ensures
        ranked.0.len() == plates.labels.len(),
        ranked.1 == rank_of(plates.counts@, plates.counts.len() as int),
        forall|b: int|
            0 <= b < plates.labels.len() ==> #[trigger] ranked.0[b] == rank_of(
                plates.counts@,
                plates.labels[b].unwrap() as int,
            ) && ranked.0[b] < ranked.1,
{
    let n = plates.counts.len();
    let mut ranks: Vec<usize> = Vec::with_capacity(n);
    let mut next: usize = 0;
    let mut p: usize = 0;
    while p < n
        invariant
            p <= n,
            n == plates.counts.len(),
            ranks.len() == p,
            next == rank_of(plates.counts@, p as int),
            next <= p,
            forall|q: int| 0 <= q < p ==> #[trigger] ranks[q] == rank_of(plates.counts@, q),
        decreases n - p,
    {
        ranks.push(next);
        if plates.counts[p] != 0 {
            next += 1;
        }
        p += 1;
    }
    let area = plates.labels.len();
    let mut tiles: Vec<usize> = Vec::with_capacity(area);
    let mut b: usize = 0;
    while b < area
        invariant
            b <= area,
            area == plates.labels.len(),
            n == plates.counts.len(),
            plates.wf(),
            plates.complete(),
            ranks.len() == n,
            next == rank_of(plates.counts@, n as int),
            forall|q: int| 0 <= q < n ==> #[trigger] ranks[q] == rank_of(plates.counts@, q),
            tiles.len() == b,
            forall|c: int|
                0 <= c < b ==> #[trigger] tiles[c] == rank_of(
                    plates.counts@,
                    plates.labels[c].unwrap() as int,
                ) && tiles[c] < next,
        decreases area - b,
    {
        assert(plates.labels[b as int].is_some());
        let l = plates.labels[b].unwrap();
        proof {
            lemma_tally_positive(plates.labels@, b as int, l as int);
            lemma_rank_rises(plates.counts@, l as int, n as int);
        }
        tiles.push(ranks[l]);
        b += 1;
    }
    (tiles, next)
}

} // verus!
