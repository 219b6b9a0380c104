//! What the map generators share, and the generator that paints a test
//! card.

use vstd::prelude::*;
use crate::geo::route::{lemma_neighbour_indices_in_map, neighbour_indices, neighbours_of};
use crate::hex::{Hex, HexType};
use crate::hexmap::HexMap;

verus! {

/// A generator of maps.
pub trait MapGen {
    /// Gives every tile of the map its terrain.
    fn generate(&self, hex_map: &mut HexMap)
        requires
            old(hex_map).wf(),
        ensures
            final(hex_map).wf(),
            final(hex_map).size_x == old(hex_map).size_x,
            final(hex_map).size_y == old(hex_map).size_y,
    ;

    /// Fixes the seed from which the generator draws its numbers.
    fn set_seed(&mut self, seed: u32);

    /// Stretches a seed to the 32 bytes that a random number generator
    /// takes.
    fn seed_to_rng_seed(&self, seed: u32) -> (bytes: [u8; 32])
        ensures
            forall|i: int| 0 <= i < 32 ==> #[trigger] bytes[i] == seed_byte(seed, i),
    {
        seed_to_rng_seed(seed)
    }

    /// Turns into `to` each tile of the kind `from` that differs from more
    /// than `strength` of its neighbours.
    fn clear_pass(&self, hex_map: &mut HexMap, from: HexType, to: HexType, strength: u32)
        requires
            old(hex_map).wf(),
        ensures
            final(hex_map).wf(),
            final(hex_map).size_x == old(hex_map).size_x,
            final(hex_map).size_y == old(hex_map).size_y,
            forall|i: int|
                0 <= i < old(hex_map).area() ==> #[trigger] final(hex_map).field[i] == (Hex {
                    terrain_type: cleared(old(hex_map), i, from, to, strength),
                    ..old(hex_map).field[i]
                }),
    {
        clear_pass(hex_map, from, to, strength)
    }
}

/// The seed turned left by `turns` bytes.
pub open spec fn turned(seed: u32, turns: int) -> u32 {
    if turns % 4 == 0 {
        seed
    } else if turns % 4 == 1 {
        (seed << 8) | (seed >> 24)
    } else if turns % 4 == 2 {
        (seed << 16) | (seed >> 16)
    } else {
        (seed << 24) | (seed >> 8)
    }
}

/// Byte `i` of the 32 that a seed is stretched to: the lowest byte of the
/// seed turned left by `i` bytes.
pub open spec fn seed_byte(seed: u32, i: int) -> u8 {
    (turned(seed, i) & 0xff) as u8
}

/// Stretches a seed to the 32 bytes that a random number generator takes:
/// the bytes of the seed, lowest first and then from the highest down, eight
/// times over.
pub fn seed_to_rng_seed(seed: u32) -> (bytes: [u8; 32])
    ensures
        forall|i: int| 0 <= i < 32 ==> #[trigger] bytes[i] == seed_byte(seed, i),
{
    let mut bytes: [u8; 32] = [0;32];
    let mut copy: u32 = seed;
    let mut i: usize = 0;
    while i < 32
        invariant
            i <= 32,
            copy == turned(seed, i as int),
            forall|j: int| 0 <= j < i ==> #[trigger] bytes[j] == seed_byte(seed, j),
        decreases 32 - i,
    {
        bytes[i] = (copy & 0xff) as u8;
        let next: u32 = (copy << 8) | (copy >> 24);
        proof {
            let a = (seed << 8) | (seed >> 24);
            let b = (seed << 16) | (seed >> 16);
            let c = (seed << 24) | (seed >> 8);
            assert((a << 8) | (a >> 24) == b) by (bit_vector)
                requires
                    a == (seed << 8) | (seed >> 24),
                    b == (seed << 16) | (seed >> 16),
            ;
            assert((b << 8) | (b >> 24) == c) by (bit_vector)
                requires
                    b == (seed << 16) | (seed >> 16),
                    c == (seed << 24) | (seed >> 8),
            ;
            assert((c << 8) | (c >> 24) == seed) by (bit_vector)
                requires
                    c == (seed << 24) | (seed >> 8),
            ;
        }
        copy = next;
        i += 1;
    }
    bytes
}

/// How many of the tiles `around` differ in terrain from `kind`.
pub open spec fn differing(field: Seq<Hex>, around: Seq<int>, kind: HexType) -> nat
    decreases around.len(),
{
    if around.len() == 0 {
        0
    } else {
        differing(field, around.drop_last(), kind) + if field[around.last()].terrain_type != kind {
            1nat
        } else {
            0nat
        }
    }
}

/// The terrain of tile `i` after a clearing pass: `to` where the tile is of
/// the kind `from` and more than `strength` of its neighbours differ from
/// it, else what it was.
pub open spec fn cleared(map: &HexMap, i: int, from: HexType, to: HexType, strength: u32) -> HexType {
    let kind = map.field[i].terrain_type;
    if kind == from && differing(map.field@, neighbour_indices(map, i), kind) > strength {
        to
    } else {
        kind
    }
}

/// Turns into `to` each tile of the kind `from` that differs from more than
/// `strength` of its neighbours, every tile judged by the map before the
/// pass.
pub fn clear_pass(hex_map: &mut HexMap, from: HexType, to: HexType, strength: u32)
    requires
        old(hex_map).wf(),
    ensures
        final(hex_map).wf(),
        final(hex_map).size_x == old(hex_map).size_x,
        final(hex_map).size_y == old(hex_map).size_y,
        forall|i: int|
            0 <= i < old(hex_map).area() ==> #[trigger] final(hex_map).field[i] == (Hex {
                terrain_type: cleared(old(hex_map), i, from, to, strength),
                ..old(hex_map).field[i]
            }),
{
    let n = hex_map.field.len();
    let mut kinds: Vec<HexType> = Vec::with_capacity(n);
    let mut i: usize = 0;
    while i < n
        invariant
            i <= n,
            n == hex_map.area(),
            hex_map == old(hex_map),
            hex_map.wf(),
            kinds.len() == i,
            forall|j: int| 0 <= j < i ==> #[trigger] kinds[j] == cleared(hex_map, j, from, to, strength),
        decreases n - i,
    {
        let kind = hex_map.field[i].terrain_type;
        let around = neighbours_of(hex_map, i);
        let ghost tiles = around@.map_values(|t: usize| t as int);
        proof {
            assert(tiles =~= neighbour_indices(hex_map, i as int));
            assert(tiles.take(0) =~= Seq::<int>::empty());
            lemma_neighbour_indices_in_map(hex_map, i as int);
        }
        let mut diff: u32 = 0;
        let mut k: usize = 0;
        while k < around.len()
            invariant
                k <= around.len(),
                around.len() <= 6,
                diff <= k,
                n == hex_map.field.len(),
                tiles == around@.map_values(|t: usize| t as int),
                forall|j: int| 0 <= j < around.len() ==> #[trigger] around[j] < n,
                diff == differing(hex_map.field@, tiles.take(k as int), kind),
            decreases around.len() - k,
        {
            proof {
                assert(tiles.take(k + 1).drop_last() =~= tiles.take(k as int));
            }
            if hex_map.field[around[k]].terrain_type != kind {
                diff += 1;
            }
            k += 1;
        }
        proof {
            assert(tiles.take(around.len() as int) =~= tiles);
            lemma_neighbour_indices_in_map(hex_map, i as int);
        }
        if diff > strength && from == kind {
            kinds.push(to);
        } else {
            kinds.push(kind);
        }
        i += 1;
    }
    let mut i: usize = 0;
    while i < n
        invariant
            i <= n,
            n == old(hex_map).area(),
            n == old(hex_map).field.len(),
            n == hex_map.field.len(),
            hex_map.size_x == old(hex_map).size_x,
            hex_map.size_y == old(hex_map).size_y,
            kinds.len() == n,
            forall|j: int|
                0 <= j < n ==> #[trigger] kinds[j] == cleared(old(hex_map), j, from, to, strength),
            forall|j: int|
                0 <= j < i ==> #[trigger] hex_map.field[j] == (Hex {
                    terrain_type: kinds[j],
                    ..old(hex_map).field[j]
                }),
            forall|j: int| i <= j < n ==> #[trigger] hex_map.field[j] == old(hex_map).field[j],
        decreases n - i,
    {
        let mut hex = hex_map.field[i];
        hex.terrain_type = kinds[i];
        hex_map.field.set(i, hex);
        i += 1;
    }
}

/// Generator of a test card: bands of every kind of terrain.
pub struct Debug {}

/// The tile at position `i` of the test card: every two rows the next kind
/// of terrain, and where that kind is the painted one, red rising along the
/// row and green down the map.
pub open spec fn card_tile(i: int, size_x: int, size_y: int) -> HexType {
    let band = (i / size_x / 2) % 13;
    if band == 12 {
        HexType::Debug(
            ((i % size_x) * 255 / size_x) as u8,
            ((i / size_x) * 255 / size_y) as u8,
            0,
        )
    } else if band == 0 {
        HexType::Field
    } else if band == 1 {
        HexType::Forest
    } else if band == 2 {
        HexType::Desert
    } else if band == 3 {
        HexType::Tundra
    } else if band == 4 {
        HexType::Water
    } else if band == 5 {
        HexType::Ocean
    } else if band == 6 {
        HexType::Mountain
    } else if band == 7 {
        HexType::Impassable
    } else if band == 8 {
        HexType::Ice
    } else if band == 9 {
        HexType::Jungle
    } else if band == 10 {
        HexType::Swamp
    } else {
        HexType::Grassland
    }
}

impl Default for Debug {
    fn default() -> Debug {
        Debug {  }
    }
}

impl MapGen for Debug {
    fn generate(&self, hex_map: &mut HexMap)
        ensures
            forall|i: int|
                0 <= i < old(hex_map).area() ==> #[trigger] final(hex_map).field[i] == (Hex {
                    terrain_type: card_tile(
                        i,
                        old(hex_map).size_x as int,
                        old(hex_map).size_y as int,
                    ),
                    ..old(hex_map).field[i]
                }),
    {
        let n = hex_map.field.len();
        let size_x = hex_map.size_x as usize;
        let size_y = hex_map.size_y as usize;
        let mut i: usize = 0;
        while i < n
            invariant
                i <= n,
                n == old(hex_map).area(),
                n == hex_map.field.len(),
                old(hex_map).sized(),
                size_x == old(hex_map).size_x,
                size_y == old(hex_map).size_y,
                hex_map.size_x == old(hex_map).size_x,
                hex_map.size_y == old(hex_map).size_y,
                forall|j: int|
                    0 <= j < i ==> #[trigger] hex_map.field[j] == (Hex {
                        terrain_type: card_tile(j, size_x as int, size_y as int),
                        ..old(hex_map).field[j]
                    }),
                forall|j: int| i <= j < n ==> #[trigger] hex_map.field[j] == old(hex_map).field[j],
            decreases n - i,
        {
            let band = (i / size_x / 2) % 13;
            let kind = if band == 12 {
                proof {
                    crate::hexmap::lemma_index_round_trip(i as int, size_x as int, size_y as int);
                    vstd::arithmetic::div_mod::lemma_mod_bound(i as int, size_x as int);
                    let col = i as int % (size_x as int);
                    let row = i as int / (size_x as int);
                    assert(size_x <= n && size_y <= n) by (nonlinear_arith)
                        requires
                            n == size_x * size_y,
                            size_x >= 1,
                            size_y >= 1,
                    ;
                    assert(col * 255 / (size_x as int) < 255) by (nonlinear_arith)
                        requires
                            0 <= col < size_x,
                    ;
                    assert(row * 255 / (size_y as int) < 255) by (nonlinear_arith)
                        requires
                            0 <= row < size_y,
                    ;
                    assert(0 <= col * 255 && 0 <= row * 255) by (nonlinear_arith)
                        requires
                            0 <= col,
                            0 <= row,
                    ;
                    assert(col * 255 <= 255 * 0x1000_0000 && row * 255 <= 255 * 0x1000_0000)
                        by (nonlinear_arith)
                        requires
                            col <= 0x1000_0000,
                            row <= 0x1000_0000,
                    ;
                }
                let red = (i % size_x) as u64 * 255 / size_x as u64;
                let green = (i / size_x) as u64 * 255 / size_y as u64;
                HexType::Debug(red as u8, green as u8, 0)
            } else {
                HexType::from_index(band as i32)
            };
            let mut hex = hex_map.field[i];
            hex.terrain_type = kind;
            hex_map.field.set(i, hex);
            i += 1;
        }
    }

    fn set_seed(&mut self, _seed: u32) {
    }
}

} // verus!
