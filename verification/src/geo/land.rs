//! From heights to terrain: the heights are cut at three ranks of their
//! sorted order, and each tile gets its terrain from the band it falls in.
//!
//! A height is given as a key: a whole number that orders as the height it
//! stands for.

use vstd::prelude::*;
use vstd::relations::{sorted_by, total_ordering};
use vstd::seq_lib::lemma_sorted_unique;
use crate::hex::{Hex, HexType};
use crate::hexmap::HexMap;

verus! {

/// Rank, in hundredths, below which lies the ocean.
pub const OCEAN_RANK: usize = 50;

/// Rank, in hundredths, below which lies water.
pub const LAND_RANK: usize = 72;

/// Rank, in hundredths, above which lie mountains.
pub const MOUNTAIN_RANK: usize = 97;

/// The heights at which the terrain changes.
#[derive(Debug, Clone, Copy, PartialEq, Eq, Structural)]
pub struct Thresholds {
    pub ocean: u32,
    pub land: u32,
    pub mountain: u32,
}

/// The order of the keys.
pub open spec fn key_order() -> spec_fn(u32, u32) -> bool {
    |a: u32, b: u32| a <= b
}

/// The heights in rising order.
pub open spec fn rising(heights: Seq<u32>) -> Seq<u32> {
    heights.sort_by(key_order())
}

/// Place in the rising order of the height at rank `rank`, in hundredths.
pub open spec fn rank_index(len: int, rank: int) -> int {
    len * rank / 100
}

/// The heights at the three ranks.
pub open spec fn levels(heights: Seq<u32>) -> Thresholds {
    Thresholds {
        ocean: rising(heights)[rank_index(heights.len() as int, OCEAN_RANK as int)],
        land: rising(heights)[rank_index(heights.len() as int, LAND_RANK as int)],
        mountain: rising(heights)[rank_index(heights.len() as int, MOUNTAIN_RANK as int)],
    }
}

/// The terrain of a tile of the given height: ocean below the ocean level,
/// water from there up to the land level, mountain above the mountain level,
/// field between.
pub open spec fn terrain_at(height: u32, levels: Thresholds) -> HexType {
    if height < levels.ocean {
        HexType::Ocean
    } else if height < levels.land {
        HexType::Water
    } else if height > levels.mountain {
        HexType::Mountain
    } else {
        HexType::Field
    }
}

/// The order of the keys is a total order.
pub proof fn lemma_key_order_total()
    ensures
        total_ordering(key_order()),
{
    let leq = key_order();
    assert(vstd::relations::reflexive(leq));
    assert(vstd::relations::antisymmetric(leq));
    assert(vstd::relations::transitive(leq));
    assert(vstd::relations::strongly_connected(leq));
}

/// Percentile monotonicity: the ocean level is no higher than the land
/// level, and the land level no higher than the mountain level.
pub proof fn lemma_levels_rise(heights: Seq<u32>)
    requires
        heights.len() > 0,
    ensures
        levels(heights).ocean <= levels(heights).land <= levels(heights).mountain,
{
    lemma_key_order_total();
    heights.lemma_sort_by_ensures(key_order());
    let sorted = rising(heights);
    let n = heights.len() as int;
    vstd::seq_lib::to_multiset_len(heights);
    vstd::seq_lib::to_multiset_len(sorted);
    let a = rank_index(n, OCEAN_RANK as int);
    let b = rank_index(n, LAND_RANK as int);
    let c = rank_index(n, MOUNTAIN_RANK as int);
    assert(0 <= a <= b <= c < n);
    if a < b {
        assert(key_order()(sorted[a], sorted[b]));
    }
    if b < c {
        assert(key_order()(sorted[b], sorted[c]));
    }
}

/// Merges two rising rows of keys into one.
fn merge(a: &Vec<u32>, b: &Vec<u32>) -> (merged: Vec<u32>)
    requires
        sorted_by(a@, key_order()),
        sorted_by(b@, key_order()),
        a.len() + b.len() <= usize::MAX,
    ensures
        sorted_by(merged@, key_order()),
        merged@.to_multiset() == a@.to_multiset().add(b@.to_multiset()),
        merged.len() == a.len() + b.len(),
{
    let mut merged: Vec<u32> = Vec::with_capacity(a.len() + b.len());
    let mut i: usize = 0;
    let mut j: usize = 0;
    proof {
        let none = Seq::<u32>::empty();
        assert(a@.take(0) =~= none);
        assert(b@.take(0) =~= none);
        assert(merged@ =~= none + none);
        vstd::seq_lib::lemma_multiset_commutative(none, none);
    }
    while i < a.len() || j < b.len()
        invariant
            i <= a.len(),
            j <= b.len(),
            sorted_by(a@, key_order()),
            sorted_by(b@, key_order()),
            merged.len() == i + j,
            sorted_by(merged@, key_order()),
            merged@.to_multiset() == a@.take(i as int).to_multiset().add(
                b@.take(j as int).to_multiset(),
            ),
            forall|k: int| 0 <= k < merged.len() && i < a.len() ==> merged[k] <= a[i as int],
            forall|k: int| 0 <= k < merged.len() && j < b.len() ==> merged[k] <= b[j as int],
        decreases a.len() - i + (b.len() - j),
    {
        let ghost before = merged@;
        let from_a = if i < a.len() && j < b.len() {
            a[i] <= b[j]
        } else {
            i < a.len()
        };
        if from_a {
            let x = a[i];
            merged.push(x);
            proof {
                assert(a@.take(i + 1) =~= a@.take(i as int).push(x));
                vstd::seq_lib::to_multiset_build(before, x);
                vstd::seq_lib::to_multiset_build(a@.take(i as int), x);
                assert(merged@.to_multiset() =~= a@.take(i + 1).to_multiset().add(
                    b@.take(j as int).to_multiset(),
                ));
                assert forall|k: int, l: int| 0 <= k < l < merged.len() implies #[trigger] key_order()(
                    merged[k],
                    merged[l],
                ) by {
                    if l < before.len() {
                        assert(key_order()(before[k], before[l]));
                    }
                }
                if i + 1 < a.len() {
                    assert(key_order()(a[i as int], a[i + 1]));
                    assert forall|k: int| 0 <= k < merged.len() implies merged[k] <= a[i + 1] by {
                    }
                }
            }
            i += 1;
        } else {
            let x = b[j];
            merged.push(x);
            proof {
                assert(b@.take(j + 1) =~= b@.take(j as int).push(x));
                vstd::seq_lib::to_multiset_build(before, x);
                vstd::seq_lib::to_multiset_build(b@.take(j as int), x);
                assert(merged@.to_multiset() =~= a@.take(i as int).to_multiset().add(
                    b@.take(j + 1).to_multiset(),
                ));
                assert forall|k: int, l: int| 0 <= k < l < merged.len() implies #[trigger] key_order()(
                    merged[k],
                    merged[l],
                ) by {
                    if l < before.len() {
                        assert(key_order()(before[k], before[l]));
                    }
                }
                if j + 1 < b.len() {
                    assert(key_order()(b[j as int], b[j + 1]));
                    assert forall|k: int| 0 <= k < merged.len() implies merged[k] <= b[j + 1] by {
                    }
                }
            }
            j += 1;
        }
    }
    proof {
        assert(a@.take(a.len() as int) =~= a@);
        assert(b@.take(b.len() as int) =~= b@);
    }
    merged
}

/// The keys from place `from` up to place `to` in rising order.
fn sort_range(keys: &Vec<u32>, from: usize, to: usize) -> (sorted: Vec<u32>)
    requires
        from <= to <= keys.len(),
    ensures
        sorted_by(sorted@, key_order()),
        sorted@.to_multiset() == keys@.subrange(from as int, to as int).to_multiset(),
        sorted.len() == to - from,
    decreases to - from,
{
    if to - from <= 1 {
        let mut sorted: Vec<u32> = Vec::with_capacity(1);
        if to - from == 1 {
            sorted.push(keys[from]);
        }
        assert(sorted@ =~= keys@.subrange(from as int, to as int));
        return sorted;
    }
    let mid = from + (to - from) / 2;
    let left = sort_range(keys, from, mid);
    let right = sort_range(keys, mid, to);
    proof {
        let whole = keys@.subrange(from as int, to as int);
        let first = keys@.subrange(from as int, mid as int);
        let second = keys@.subrange(mid as int, to as int);
        assert(whole =~= first + second);
        vstd::seq_lib::lemma_multiset_commutative(first, second);
    }
    merge(&left, &right)
}

/// The keys in rising order, each as often as it was there.
pub fn sort_keys(keys: &Vec<u32>) -> (sorted: Vec<u32>)
    ensures
        sorted@ == rising(keys@),
{
    let sorted = sort_range(keys, 0, keys.len());
    proof {
        assert(keys@.subrange(0, keys.len() as int) =~= keys@);
        lemma_key_order_total();
        keys@.lemma_sort_by_ensures(key_order());
        lemma_sorted_unique(sorted@, rising(keys@), key_order());
    }
    sorted
}

/// The heights at the three ranks of the sorted order: the 50th, 72nd and
/// 97th hundredth.
pub fn thresholds(heights: &Vec<u32>) -> (found: Thresholds)
    requires
        heights.len() > 0,
    ensures
        found == levels(heights@),
        found.ocean <= found.land <= found.mountain,
{
    let n = heights.len();
    let sorted = sort_keys(heights);
    proof {
        lemma_key_order_total();
        heights@.lemma_sort_by_ensures(key_order());
        vstd::seq_lib::to_multiset_len(heights@);
        vstd::seq_lib::to_multiset_len(sorted@);
        lemma_levels_rise(heights@);
    }
    let ocean = sorted[((n as u128) * (OCEAN_RANK as u128) / 100) as usize];
    let land = sorted[((n as u128) * (LAND_RANK as u128) / 100) as usize];
    let mountain = sorted[((n as u128) * (MOUNTAIN_RANK as u128) / 100) as usize];
    Thresholds { ocean, land, mountain }
}

/// The terrain of a tile of the given height.
pub fn classify(height: u32, levels: &Thresholds) -> (terrain: HexType)
    ensures
        terrain == terrain_at(height, *levels),
{
    if height < levels.ocean {
        HexType::Ocean
    } else if height < levels.land {
        HexType::Water
    } else if height > levels.mountain {
        HexType::Mountain
    } else {
        HexType::Field
    }
}

/// Gives each tile the terrain that its height calls for.
pub fn generate_land(map: &mut HexMap, heights: &Vec<u32>)
    requires
        old(map).sized(),
        heights.len() == old(map).area(),
    ensures
        final(map).size_x == old(map).size_x,
        final(map).size_y == old(map).size_y,
        final(map).field.len() == old(map).field.len(),
        forall|i: int|
            0 <= i < old(map).field.len() ==> #[trigger] final(map).field[i] == (Hex {
                terrain_type: terrain_at(heights[i], levels(heights@)),
                ..old(map).field[i]
            }),
{
    let n = map.field.len();
    assert(n > 0) by (nonlinear_arith)
        requires
            n == map.size_x * map.size_y,
            map.size_x >= 1,
            map.size_y >= 1,
    ;
    let found = thresholds(heights);
    let mut i: usize = 0;
    while i < n
        invariant
            i <= n,
            n == map.field.len(),
            n == heights.len(),
            map.field.len() == old(map).field.len(),
            map.size_x == old(map).size_x,
            map.size_y == old(map).size_y,
            found == levels(heights@),
            forall|j: int|
                0 <= j < i ==> #[trigger] map.field[j] == (Hex {
                    terrain_type: terrain_at(heights[j], found),
                    ..old(map).field[j]
                }),
            forall|j: int| i <= j < n ==> #[trigger] map.field[j] == old(map).field[j],
        decreases n - i,
    {
        let mut hex = map.field[i];
        hex.terrain_type = classify(heights[i], &found);
        map.field.set(i, hex);
        i += 1;
    }
}

} // verus!
