//! A single tile of the map and the geometry of its surroundings.
//!
//! Tiles are addressed by axial coordinates `(x, y)`: `y` is the row, and each
//! second row shifts the first column one step to the left, so that row `y`
//! of a map `size_x` wide holds the columns `-(y / 2) .. size_x - y / 2`.
//! The map is closed horizontally and open vertically.

use vstd::prelude::*;
use crate::hexmap::HexMap;

verus! {

/// Kind of terrain on a tile.
#[derive(Debug, Clone, Copy, PartialEq, Eq, Hash, Structural)]
pub enum HexType {
    Field,
    Forest,
    Desert,
    Tundra,
    Water,
    Ocean,
    Mountain,
    Impassable,
    Ice,
    Jungle,
    Swamp,
    Grassland,
    /// Development aid: a tile painted in a given colour.
    Debug(u8, u8, u8),
}

/// Set of features that decorate a tile, independent of its terrain.
#[derive(Debug, Clone, Copy, PartialEq, Eq, Hash, Structural)]
pub struct Decor {
    pub bits: u8,
}

/// One tile of the map.
#[derive(Debug, Clone, Copy, PartialEq, Eq, Hash, Structural)]
pub struct Hex {
    pub x: i32,
    pub y: i32,
    pub terrain_type: HexType,
    pub decor: Decor,
}

/// The tile carries a river.
pub const RIVER: u8 = 0b0000_0001;

/// The tile carries a village.
pub const VILLAGE: u8 = 0b0000_0010;

/// The tile carries a city.
pub const CITY: u8 = 0b0000_0100;

/// The tile carries a road.
pub const ROAD: u8 = 0b0000_1000;

/// The tile carries a ruin.
pub const RUIN: u8 = 0b0001_0000;

/// The tile carries a hill.
pub const HILL: u8 = 0b0010_0000;

/// All the features there are.
pub const ALL_DECOR: u8 = 0b0011_1111;

impl Decor {
    /// Whether the set holds every feature of `flags`.
    pub open spec fn has(self, flags: u8) -> bool {
        self.bits & flags == flags
    }

    /// No feature at all.
    pub fn empty() -> (decor: Decor)
        ensures
            decor.bits == 0,
    {
        Decor { bits: 0 }
    }

    /// The set with the given bits, if each of them stands for a feature.
    pub fn from_bits(bits: u8) -> (decor: Option<Decor>)
        ensures
            decor == (if bits & !ALL_DECOR == 0 {
                Some(Decor { bits })
            } else {
                None
            }),
    {
        if bits & !ALL_DECOR == 0 {
            Some(Decor { bits })
        } else {
            None
        }
    }

    /// The bits of the set.
    pub fn bits(&self) -> (bits: u8)
        ensures
            bits == self.bits,
    {
        self.bits
    }

    /// Whether the set holds no feature.
    pub fn is_empty(&self) -> (none: bool)
        ensures
            none == (self.bits == 0),
    {
        self.bits == 0
    }

    /// Whether the set holds every feature of `flags`.
    pub fn contains(&self, flags: u8) -> (held: bool)
        ensures
            held == self.has(flags),
    {
        self.bits & flags == flags
    }

    /// Adds the features of `flags` to the set.
    pub fn insert(&mut self, flags: u8)
        ensures
            final(self).bits == old(self).bits | flags,
            final(self).has(flags),
    {
        let before = self.bits;
        self.bits = before | flags;
        assert((before | flags) & flags == flags) by (bit_vector);
    }

    /// Takes the features of `flags` out of the set.
    pub fn remove(&mut self, flags: u8)
        ensures
            final(self).bits == old(self).bits & !flags,
            final(self).bits & flags == 0,
    {
        let before = self.bits;
        self.bits = before & !flags;
        assert((before & !flags) & flags == 0) by (bit_vector);
    }
}

impl Default for Decor {
    fn default() -> (decor: Decor)
        ensures
            decor.bits == 0,
    {
        Decor { bits: 0 }
    }
}

impl Default for Hex {
    fn default() -> (hex: Hex)
        ensures
            hex == (Hex { x: 0, y: 0, terrain_type: HexType::Water, decor: Decor { bits: 0 } }),
    {
        Hex { x: 0, y: 0, terrain_type: HexType::Water, decor: Decor { bits: 0 } }
    }
}

impl HexType {
    /// Place of the kind in the list of kinds.
    pub open spec fn spec_index(self) -> int {
        match self {
            HexType::Field => 0,
            HexType::Forest => 1,
            HexType::Desert => 2,
            HexType::Tundra => 3,
            HexType::Water => 4,
            HexType::Ocean => 5,
            HexType::Mountain => 6,
            HexType::Impassable => 7,
            HexType::Ice => 8,
            HexType::Jungle => 9,
            HexType::Swamp => 10,
            HexType::Grassland => 11,
            HexType::Debug(_, _, _) => 12,
        }
    }

    /// Number of kinds.
    pub fn get_num_variants() -> (n: usize)
        ensures
            n == 13,
    {
        13
    }

    /// Place of the kind in the list of kinds.
    pub fn index(self) -> (index: i32)
        ensures
            index == self.spec_index(),
    {
        match self {
            HexType::Field => 0,
            HexType::Forest => 1,
            HexType::Desert => 2,
            HexType::Tundra => 3,
            HexType::Water => 4,
            HexType::Ocean => 5,
            HexType::Mountain => 6,
            HexType::Impassable => 7,
            HexType::Ice => 8,
            HexType::Jungle => 9,
            HexType::Swamp => 10,
            HexType::Grassland => 11,
            HexType::Debug(_, _, _) => 12,
        }
    }

    /// Name of the kind.
    pub open spec fn spec_name(self) -> Seq<char> {
        match self {
            HexType::Field => "Field"@,
            HexType::Forest => "Forest"@,
            HexType::Desert => "Desert"@,
            HexType::Tundra => "Tundra"@,
            HexType::Water => "Water"@,
            HexType::Ocean => "Ocean"@,
            HexType::Mountain => "Mountain"@,
            HexType::Impassable => "Impassable"@,
            HexType::Ice => "Ice"@,
            HexType::Jungle => "Jungle"@,
            HexType::Swamp => "Swamp"@,
            HexType::Grassland => "Grassland"@,
            HexType::Debug(_, _, _) => "Debug"@,
        }
    }

    /// Name of the kind.
    pub fn name(self) -> (name: &'static str)
        ensures
            name@ == self.spec_name(),
    {
        match self {
            HexType::Field => "Field",
            HexType::Forest => "Forest",
            HexType::Desert => "Desert",
            HexType::Tundra => "Tundra",
            HexType::Water => "Water",
            HexType::Ocean => "Ocean",
            HexType::Mountain => "Mountain",
            HexType::Impassable => "Impassable",
            HexType::Ice => "Ice",
            HexType::Jungle => "Jungle",
            HexType::Swamp => "Swamp",
            HexType::Grassland => "Grassland",
            HexType::Debug(_, _, _) => "Debug",
        }
    }

    /// The kind of terrain with the given name; the painted kind has none.
    pub fn from_name(name: &str) -> (kind: Option<HexType>)
        ensures
            match kind {
                Some(k) => k.spec_index() < 12 && name@ == k.spec_name(),
                None => forall|k: HexType| k.spec_index() < 12 ==> name@ != #[trigger] k.spec_name(),
            },
    {
        let wanted = name.to_owned();
        let mut index: i32 = 0;
        while index < 12
            invariant
                0 <= index <= 12,
                wanted@ == name@,
                forall|k: HexType| k.spec_index() < index ==> name@ != #[trigger] k.spec_name(),
            decreases 12 - index,
        {
            let kind = HexType::from_index(index);
            if wanted == kind.name().to_owned() {
                return Some(kind);
            }
            assert forall|k: HexType| k.spec_index() < index + 1 implies name@
                != #[trigger] k.spec_name() by {
                if k.spec_index() == index {
                    assert(k == kind);
                }
            }
            index += 1;
        }
        None
    }

    /// The kind at the given place in the list of kinds; the last of them
    /// comes painted black.
    pub fn from_index(index: i32) -> (kind: HexType)
        requires
            0 <= index < 13,
        ensures
            kind.spec_index() == index,
            index == 12 ==> kind == HexType::Debug(0, 0, 0),
    {
        match index {
            0 => HexType::Field,
            1 => HexType::Forest,
            2 => HexType::Desert,
            3 => HexType::Tundra,
            4 => HexType::Water,
            5 => HexType::Ocean,
            6 => HexType::Mountain,
            7 => HexType::Impassable,
            8 => HexType::Ice,
            9 => HexType::Jungle,
            10 => HexType::Swamp,
            11 => HexType::Grassland,
            _ => HexType::Debug(0, 0, 0),
        }
    }
}

/// Half of `y` rounded down, for rows above the map too.
pub open spec fn half(y: int) -> int {
    y / 2
}

/// Absolute value.
pub open spec fn abs(v: int) -> int {
    if v < 0 {
        -v
    } else {
        v
    }
}

/// Whether column `x` lies inside row `y` of a map `size_x` wide.
pub open spec fn in_row(x: int, y: int, size_x: int) -> bool {
    -half(y) <= x < size_x - half(y)
}

/// A coordinate brought back by at most one map width: one `size_x` is added
/// left of the row, one is taken off right of it, and the row never changes.
pub open spec fn wrapped(x: int, y: int, size_x: int) -> (int, int) {
    if x < -half(y) {
        (x + size_x, y)
    } else if x >= size_x - half(y) {
        (x - size_x, y)
    } else {
        (x, y)
    }
}

/// Number of steps between two coordinates.
pub open spec fn distance_between(ax: int, ay: int, bx: int, by: int) -> int {
    (abs(ax - bx) + abs(ax + ay - bx - by) + abs(ay - by)) / 2
}

/// The offset of the neighbour in direction `dir`: bottom right, bottom left,
/// left, top left, top right, right.
pub open spec fn step(dir: int) -> (int, int) {
    if dir == 0 {
        (0, 1)
    } else if dir == 1 {
        (-1, 1)
    } else if dir == 2 {
        (-1, 0)
    } else if dir == 3 {
        (0, -1)
    } else if dir == 4 {
        (1, -1)
    } else {
        (1, 0)
    }
}

/// The neighbour of `(x, y)` in direction `dir`, wrapped horizontally.
pub open spec fn neighbour(x: int, y: int, size_x: int, dir: int) -> (int, int) {
    wrapped(x + step(dir).0, y + step(dir).1, size_x)
}

/// All six neighbours, whether their rows exist or not.
pub open spec fn neighbours_unchecked(x: int, y: int, size_x: int) -> Seq<(int, int)> {
    Seq::new(6, |dir: int| neighbour(x, y, size_x, dir))
}

/// The neighbours whose rows exist: those below are left out on the last row,
/// those above on the first.
pub open spec fn neighbours(x: int, y: int, size_x: int, size_y: int) -> Seq<(int, int)> {
    let below = if y != size_y - 1 {
        seq![neighbour(x, y, size_x, 0), neighbour(x, y, size_x, 1)]
    } else {
        Seq::empty()
    };
    let above = if y != 0 {
        seq![neighbour(x, y, size_x, 3), neighbour(x, y, size_x, 4)]
    } else {
        Seq::empty()
    };
    below + seq![neighbour(x, y, size_x, 2)] + above + seq![neighbour(x, y, size_x, 5)]
}

/// Where the walk round the ring of `radius` stands after `k` steps. It starts
/// at the wrapped corner `(x + radius, y - radius)` and takes `radius` steps
/// in each of the six directions in turn.
pub open spec fn ring_walk(x: int, y: int, size_x: int, radius: int, k: nat) -> (int, int)
    decreases k,
{
    if k == 0 || radius <= 0 {
        wrapped(x + radius, y - radius, size_x)
    } else {
        let p = ring_walk(x, y, size_x, radius, (k - 1) as nat);
        neighbour(p.0, p.1, size_x, (k - 1) / radius)
    }
}

/// The ring of `radius` round `(x, y)` in walking order; empty for radius 0.
pub open spec fn ring(x: int, y: int, size_x: int, radius: int) -> Seq<(int, int)> {
    Seq::new((6 * radius) as nat, |k: int| ring_walk(x, y, size_x, radius, k as nat))
}

/// The tile itself followed by the rings of radius 1 up to `radius`.
pub open spec fn spiral(x: int, y: int, size_x: int, radius: nat) -> Seq<(int, int)>
    decreases radius,
{
    if radius == 0 {
        seq![(x, y)]
    } else {
        spiral(x, y, size_x, (radius - 1) as nat) + ring(x, y, size_x, radius as int)
    }
}

/// Coordinates read as mathematical integers.
pub open spec fn coords(v: Seq<(i32, i32)>) -> Seq<(int, int)> {
    Seq::new(v.len(), |i: int| (v[i].0 as int, v[i].1 as int))
}

/// Whether a step from `(x, y)` to any neighbour, and the wrapping of the
/// result, stay within the machine's 32-bit integers.
pub open spec fn step_fits(x: int, y: int, size_x: int) -> bool {
    abs(x) < i32::MAX && abs(y) + size_x < i32::MAX
}

/// Whether every coordinate that the walks of `radius` round `(x, y)` touch,
/// and every sum formed on the way, fits the machine's 32-bit integers.
pub open spec fn reach_fits(x: int, y: int, size_x: int, radius: int) -> bool {
    abs(x) + abs(y) + 8 * radius + 2 * size_x + 2 <= i32::MAX
}

/// Number of tiles in the spiral of `radius`.
pub open spec fn spiral_len(radius: int) -> int {
    1 + 3 * radius * (radius + 1)
}

/// The walk round a ring strays from its centre by no more than the steps
/// taken and one map width.
pub proof fn lemma_ring_walk_bound(x: int, y: int, size_x: int, radius: int, k: nat)
    requires
        0 <= size_x,
        0 <= radius,
    ensures
        abs(ring_walk(x, y, size_x, radius, k).1) <= abs(y) + radius + k,
        abs(ring_walk(x, y, size_x, radius, k).0) <= size_x + abs(x) + abs(y) + 2 * radius + k,
    decreases k,
{
    if k == 0 || radius <= 0 {
    } else {
        lemma_ring_walk_bound(x, y, size_x, radius, (k - 1) as nat);
        let p = ring_walk(x, y, size_x, radius, (k - 1) as nat);
        let dir = (k - 1) / radius;
        assert(abs(step(dir).0) <= 1 && abs(step(dir).1) <= 1);
    }
}

/// One step in any of the six directions leads to a tile at distance one,
/// the distance is the same in both directions, and it is zero between a
/// tile and itself only.
pub proof fn lemma_distance(ax: int, ay: int, bx: int, by: int, dir: int)
    requires
        0 <= dir < 6,
    ensures
        distance_between(ax, ay, ax + step(dir).0, ay + step(dir).1) == 1,
        distance_between(ax, ay, bx, by) == distance_between(bx, by, ax, ay),
        distance_between(ax, ay, bx, by) == 0 <==> (ax == bx && ay == by),
        distance_between(ax, ay, bx, by) >= 0,
{
}

/// The corner of the ring of `radius` round `(x, y)` at which the walk turns
/// into direction `edge`.
pub open spec fn ring_corner(x: int, y: int, radius: int, edge: int) -> (int, int) {
    if edge == 0 {
        (x + radius, y - radius)
    } else if edge == 1 {
        (x + radius, y)
    } else if edge == 2 {
        (x, y + radius)
    } else if edge == 3 {
        (x - radius, y + radius)
    } else if edge == 4 {
        (x - radius, y)
    } else {
        (x, y - radius)
    }
}

/// Where the walk round the ring would stand after `k` steps on a map
/// without edges.
pub open spec fn ring_place(x: int, y: int, radius: int, k: int) -> (int, int) {
    let edge = k / radius;
    let along = k % radius;
    (
        ring_corner(x, y, radius, edge).0 + along * step(edge).0,
        ring_corner(x, y, radius, edge).1 + along * step(edge).1,
    )
}

/// A ring is what its name says: on a map without edges every place of the
/// walk lies `radius` steps from the centre.
pub proof fn lemma_ring_place_distance(x: int, y: int, radius: int, k: int)
    requires
        1 <= radius,
        0 <= k < 6 * radius,
    ensures
        distance_between(
            x,
            y,
            ring_place(x, y, radius, k).0,
            ring_place(x, y, radius, k).1,
        ) == radius,
{
    let edge = k / radius;
    let along = k % radius;
    vstd::arithmetic::div_mod::lemma_fundamental_div_mod(k, radius);
    vstd::arithmetic::div_mod::lemma_mod_bound(k, radius);
    assert(0 <= edge < 6) by (nonlinear_arith)
        requires
            k == radius * edge + along,
            0 <= along < radius,
            0 <= k < 6 * radius,
    ;
    assert(along * 0 == 0 && along * 1 == along && along * (-1) == -along);
}

/// On the map the walk round the ring stands where it would stand on a map
/// without edges, moved sideways by a whole number of map widths. The
/// number is the result.
pub proof fn lemma_ring_walk_place(x: int, y: int, size_x: int, radius: int, k: nat) -> (widths:
    int)
    requires
        1 <= radius,
        k < 6 * radius,
    ensures
        ring_walk(x, y, size_x, radius, k) == (
            ring_place(x, y, radius, k as int).0 + widths * size_x,
            ring_place(x, y, radius, k as int).1,
        ),
    decreases k,
{
    if k == 0 {
        assert(0int / radius == 0 && 0int % radius == 0) by (nonlinear_arith)
            requires
                radius >= 1,
        ;
        let start = wrapped(x + radius, y - radius, size_x);
        let widths: int = if start.0 == x + radius + size_x {
            1
        } else if start.0 == x + radius - size_x {
            -1
        } else {
            0
        };
        assert(0 * size_x == 0 && 1 * size_x == size_x && (-1) * size_x == -size_x)
            by (nonlinear_arith);
        widths
    } else {
        let before = lemma_ring_walk_place(x, y, size_x, radius, (k - 1) as nat);
        let edge = (k - 1) / radius;
        let along = (k - 1) % radius;
        vstd::arithmetic::div_mod::lemma_fundamental_div_mod(k - 1, radius);
        vstd::arithmetic::div_mod::lemma_mod_bound(k - 1, radius);
        assert(0 <= edge < 6) by (nonlinear_arith)
            requires
                k - 1 == radius * edge + along,
                0 <= along < radius,
                0 <= k - 1 < 6 * radius,
        ;
        // one step further along the edge, or round the corner
        if along + 1 < radius {
            vstd::arithmetic::div_mod::lemma_fundamental_div_mod_converse(
                k as int,
                radius,
                edge,
                along + 1,
            );
            assert((along + 1) * step(edge).0 == along * step(edge).0 + step(edge).0)
                by (nonlinear_arith);
            assert((along + 1) * step(edge).1 == along * step(edge).1 + step(edge).1)
                by (nonlinear_arith);
        } else {
            assert(radius * edge + radius == (edge + 1) * radius) by (nonlinear_arith);
            vstd::arithmetic::div_mod::lemma_fundamental_div_mod_converse(
                k as int,
                radius,
                edge + 1,
                0,
            );
            assert(along == radius - 1);
            assert(along * 0 == 0 && along * 1 == along && along * (-1) == -along);
            assert(0 * step(edge + 1).0 == 0 && 0 * step(edge + 1).1 == 0);
        }
        let place = ring_place(x, y, radius, k as int);
        let last = ring_place(x, y, radius, k - 1);
        assert(place == (last.0 + step(edge).0, last.1 + step(edge).1));
        let walked = ring_walk(x, y, size_x, radius, (k - 1) as nat);
        let moved = (walked.0 + step(edge).0, walked.1 + step(edge).1);
        let now = wrapped(moved.0, moved.1, size_x);
        assert(ring_walk(x, y, size_x, radius, k) == now);
        let widths: int = if now.0 == moved.0 + size_x {
            before + 1
        } else if now.0 == moved.0 - size_x {
            before - 1
        } else {
            before
        };
        assert((before + 1) * size_x == before * size_x + size_x && (before - 1) * size_x
            == before * size_x - size_x) by (nonlinear_arith);
        widths
    }
}

/// Ring and spiral cardinality: a ring of radius `r` holds `6 r` tiles, the
/// spiral `1 + 3 r (r + 1)`.
pub proof fn lemma_ring_spiral_len(x: int, y: int, size_x: int, radius: nat)
    ensures
        ring(x, y, size_x, radius as int).len() == 6 * radius,
        spiral(x, y, size_x, radius).len() == spiral_len(radius as int),
    decreases radius,
{
    if radius > 0 {
        lemma_ring_spiral_len(x, y, size_x, (radius - 1) as nat);
        assert(spiral_len(radius as int) == spiral_len(radius - 1) + 6 * radius)
            by (nonlinear_arith);
    }
}

/// Every neighbour of a tile of the map whose row exists is a tile of the
/// map.
pub proof fn lemma_neighbour_in_map(x: int, y: int, size_x: int, size_y: int, dir: int)
    requires
        1 <= size_x,
        0 <= y < size_y,
        in_row(x, y, size_x),
        0 <= dir < 6,
        0 <= y + step(dir).1 < size_y,
    ensures
        in_row(neighbour(x, y, size_x, dir).0, neighbour(x, y, size_x, dir).1, size_x),
        neighbour(x, y, size_x, dir).1 == y + step(dir).1,
{
}

/// Neighbour count: a tile on neither the first nor the last row has six
/// neighbours, and in a map of two rows or more a tile on either has four.
pub proof fn lemma_neighbour_count(x: int, y: int, size_x: int, size_y: int)
    requires
        0 <= y < size_y,
    ensures
        0 < y < size_y - 1 ==> neighbours(x, y, size_x, size_y).len() == 6,
        size_y >= 2 && (y == 0 || y == size_y - 1) ==> neighbours(x, y, size_x, size_y).len()
            == 4,
        size_y == 1 ==> neighbours(x, y, size_x, size_y).len() == 2,
{
}

/// Wrap idempotence: a coordinate inside its row is left as it is, and
/// wrapping a second time changes nothing where the first brought the
/// coordinate into its row, which it does from up to one map width away.
pub proof fn lemma_wrapped_idempotent(x: int, y: int, size_x: int)
    requires
        1 <= size_x,
    ensures
        in_row(x, y, size_x) ==> wrapped(x, y, size_x) == (x, y),
        -half(y) - size_x <= x < 2 * size_x - half(y) ==> in_row(
            wrapped(x, y, size_x).0,
            y,
            size_x,
        ),
        -half(y) - size_x <= x < 2 * size_x - half(y) ==> wrapped(
            wrapped(x, y, size_x).0,
            wrapped(x, y, size_x).1,
            size_x,
        ) == wrapped(x, y, size_x),
{
}

impl Hex {
    /// A tile at the given coordinates, under water and undecorated.
    pub fn from_coords(x: i32, y: i32) -> (hex: Hex)
        ensures
            hex == (Hex { x, y, terrain_type: HexType::Water, decor: Decor { bits: 0 } }),
    {
        Hex { x, y, terrain_type: HexType::Water, decor: Decor { bits: 0 } }
    }

    /// Number of steps from this tile to `other`.
    pub fn distance_between(&self, other: &Hex) -> (d: u32)
        requires
            distance_between(self.x as int, self.y as int, other.x as int, other.y as int)
                <= u32::MAX,
        ensures
            d == distance_between(self.x as int, self.y as int, other.x as int, other.y as int),
    {
        Hex::distance(self.x, self.y, other.x, other.y)
    }

    /// Number of steps from this tile to the given coordinates.
    pub fn distance_to(&self, other_x: i32, other_y: i32) -> (d: u32)
        requires
            distance_between(self.x as int, self.y as int, other_x as int, other_y as int)
                <= u32::MAX,
        ensures
            d == distance_between(self.x as int, self.y as int, other_x as int, other_y as int),
    {
        Hex::distance(self.x, self.y, other_x, other_y)
    }

    /// Number of steps between two coordinates.
    pub fn distance(first_x: i32, first_y: i32, other_x: i32, other_y: i32) -> (d: u32)
        requires
            distance_between(first_x as int, first_y as int, other_x as int, other_y as int)
                <= u32::MAX,
        ensures
            d == distance_between(first_x as int, first_y as int, other_x as int, other_y as int),
    {
        let dx: i64 = first_x as i64 - other_x as i64;
        let dy: i64 = first_y as i64 - other_y as i64;
        let ds: i64 = dx + dy;
        let ax: i64 = if dx < 0 { -dx } else { dx };
        let ay: i64 = if dy < 0 { -dy } else { dy };
        let az: i64 = if ds < 0 { -ds } else { ds };
        ((ax + az + ay) / 2) as u32
    }

    /// The neighbours of this tile whose rows the map has, each wrapped.
    pub fn get_neighbours(&self, hexmap: &HexMap) -> (found: Vec<(i32, i32)>)
        requires
            step_fits(self.x as int, self.y as int, hexmap.size_x as int),
        ensures
            coords(found@) == neighbours(
                self.x as int,
                self.y as int,
                hexmap.size_x as int,
                hexmap.size_y as int,
            ),
            found.len() == (if self.y != hexmap.size_y - 1 {
                2int
            } else {
                0int
            }) + (if self.y != 0 {
                2int
            } else {
                0int
            }) + 2,
    {
        let mut found: Vec<(i32, i32)> = Vec::with_capacity(6);
        if self.y as i64 != hexmap.size_y as i64 - 1 {
            found.push(Hex::unwrap_coords(self.x, self.y + 1, hexmap.size_x));
            found.push(Hex::unwrap_coords(self.x - 1, self.y + 1, hexmap.size_x));
        }
        found.push(Hex::unwrap_coords(self.x - 1, self.y, hexmap.size_x));
        if self.y != 0 {
            found.push(Hex::unwrap_coords(self.x, self.y - 1, hexmap.size_x));
            found.push(Hex::unwrap_coords(self.x + 1, self.y - 1, hexmap.size_x));
        }
        found.push(Hex::unwrap_coords(self.x + 1, self.y, hexmap.size_x));
        assert(coords(found@) =~= neighbours(
            self.x as int,
            self.y as int,
            hexmap.size_x as int,
            hexmap.size_y as int,
        ));
        found
    }

    /// All six neighbours of this tile, each wrapped, whether the map has
    /// their rows or not.
    pub fn get_neighbours_unchecked(&self, hexmap: &HexMap) -> (found: [(i32, i32); 6])
        requires
            step_fits(self.x as int, self.y as int, hexmap.size_x as int),
        ensures
            coords(found@) == neighbours_unchecked(
                self.x as int,
                self.y as int,
                hexmap.size_x as int,
            ),
    {
        let found = [
            Hex::unwrap_coords(self.x, self.y + 1, hexmap.size_x),
            Hex::unwrap_coords(self.x - 1, self.y + 1, hexmap.size_x),
            Hex::unwrap_coords(self.x - 1, self.y, hexmap.size_x),
            Hex::unwrap_coords(self.x, self.y - 1, hexmap.size_x),
            Hex::unwrap_coords(self.x + 1, self.y - 1, hexmap.size_x),
            Hex::unwrap_coords(self.x + 1, self.y, hexmap.size_x),
        ];
        assert(coords(found@) =~= neighbours_unchecked(
            self.x as int,
            self.y as int,
            hexmap.size_x as int,
        ));
        found
    }

    /// The ring of `radius` round this tile, in walking order from its
    /// wrapped far corner; empty for radius 0.
    pub fn get_ring(&self, hexmap: &HexMap, radius: u32) -> (found: Vec<(i32, i32)>)
        requires
            radius > 0 ==> reach_fits(
                self.x as int,
                self.y as int,
                hexmap.size_x as int,
                radius as int,
            ),
            6 * radius <= usize::MAX,
        ensures
            coords(found@) == ring(self.x as int, self.y as int, hexmap.size_x as int, radius as int),
            found.len() == 6 * radius,
    {
        let mut found: Vec<(i32, i32)> = Vec::new();
        if radius == 0 {
            assert(coords(found@) =~= ring(
                self.x as int,
                self.y as int,
                hexmap.size_x as int,
                radius as int,
            ));
            return found;
        }
        let ghost x = self.x as int;
        let ghost y = self.y as int;
        let ghost size_x = hexmap.size_x as int;
        let ghost r = radius as int;
        let mut at = Hex::unwrap_coords(self.x + radius as i32, self.y - radius as i32, hexmap.size_x);
        let mut i: usize = 0;
        while i < 6
            invariant
                i <= 6,
                r == radius,
                r >= 1,
                x == self.x,
                y == self.y,
                size_x == hexmap.size_x,
                reach_fits(x, y, size_x, r),
                (at.0 as int, at.1 as int) == ring_walk(x, y, size_x, r, (i * r) as nat),
                found.len() == i * r,
                forall|m: int|
                    0 <= m < found.len() ==> (#[trigger] found[m].0 as int, found[m].1 as int)
                        == ring_walk(x, y, size_x, r, m as nat),
            decreases 6 - i,
        {
            let mut j: u32 = 0;
            while j < radius
                invariant
                    i < 6,
                    j <= radius,
                    r == radius,
                    r >= 1,
                    x == self.x,
                    y == self.y,
                    size_x == hexmap.size_x,
                    reach_fits(x, y, size_x, r),
                    (at.0 as int, at.1 as int) == ring_walk(x, y, size_x, r, (i * r + j) as nat),
                    found.len() == i * r + j,
                    forall|m: int|
                        0 <= m < found.len() ==> (#[trigger] found[m].0 as int, found[m].1 as int)
                            == ring_walk(x, y, size_x, r, m as nat),
                decreases radius - j,
            {
                let ghost k = i * r + j;
                proof {
                    assert(0 <= k < 6 * r) by (nonlinear_arith)
                        requires
                            k == i * r + j,
                            0 <= i < 6,
                            0 <= j < r,
                    ;
                    lemma_ring_walk_bound(x, y, size_x, r, k as nat);
                    vstd::arithmetic::div_mod::lemma_fundamental_div_mod_converse(
                        k,
                        r,
                        i as int,
                        j as int,
                    );
                    assert(ring_walk(x, y, size_x, r, (k + 1) as nat) == neighbour(
                        at.0 as int,
                        at.1 as int,
                        size_x,
                        i as int,
                    ));
                    assert(i * r + j + 1 == i * r + (j + 1));
                }
                found.push(at);
                let here = Hex::from_coords(at.0, at.1);
                let around = here.get_neighbours_unchecked(hexmap);
                assert((around[i as int].0 as int, around[i as int].1 as int) == coords(
                    around@,
                )[i as int]);
                at = around[i];
                j += 1;
            }
            proof {
                assert(i * r + r == (i + 1) * r) by (nonlinear_arith);
            }
            i += 1;
        }
        assert(coords(found@) =~= ring(x, y, size_x, r));
        found
    }

    /// This tile followed by the rings of radius 1 up to `radius` round it.
    pub fn get_spiral(&self, hexmap: &HexMap, radius: u32) -> (found: Vec<(i32, i32)>)
        requires
            radius > 0 ==> reach_fits(
                self.x as int,
                self.y as int,
                hexmap.size_x as int,
                radius as int,
            ),
            spiral_len(radius as int) <= usize::MAX,
        ensures
            coords(found@) == spiral(
                self.x as int,
                self.y as int,
                hexmap.size_x as int,
                radius as nat,
            ),
            found.len() == spiral_len(radius as int),
    {
        let ghost x = self.x as int;
        let ghost y = self.y as int;
        let ghost size_x = hexmap.size_x as int;
        let mut found: Vec<(i32, i32)> = Vec::new();
        found.push((self.x, self.y));
        assert(coords(found@) =~= spiral(x, y, size_x, 0));
        let mut i: u32 = 0;
        while i < radius
            invariant
                i <= radius,
                x == self.x,
                y == self.y,
                size_x == hexmap.size_x,
                radius > 0 ==> reach_fits(x, y, size_x, radius as int),
                spiral_len(radius as int) <= usize::MAX,
                coords(found@) == spiral(x, y, size_x, i as nat),
            decreases radius - i,
        {
            proof {
                assert(6 * (i + 1) <= spiral_len(radius as int)) by (nonlinear_arith)
                    requires
                        0 <= i < radius,
                        spiral_len(radius as int) == 1 + 3 * radius * (radius + 1),
                ;
            }
            let mut next = self.get_ring(hexmap, i + 1);
            let ghost before = found@;
            let ghost added = next@;
            found.append(&mut next);
            assert(coords(found@) =~= coords(before) + coords(added));
            i += 1;
        }
        proof {
            lemma_ring_spiral_len(x, y, size_x, radius as nat);
            assert(coords(found@).len() == found.len());
        }
        found
    }

    /// Half of `y` rounded down.
    pub fn half_of(y: i32) -> (h: i64)
        ensures
            h == half(y as int),
    {
        if y >= 0 {
            (y / 2) as i64
        } else {
            -((1 - y as i64) / 2)
        }
    }

    /// Brings a coordinate that left its row sideways back by one map
    /// width: a column left of the row gains one width, a column right of
    /// it loses one, and the row stays.
    pub fn unwrap_coords(x: i32, y: i32, size_x: u32) -> (c: (i32, i32))
        requires
            i32::MIN <= wrapped(x as int, y as int, size_x as int).0 <= i32::MAX,
        ensures
            (c.0 as int, c.1 as int) == wrapped(x as int, y as int, size_x as int),
            c.1 == y,
            in_row(x as int, y as int, size_x as int) ==> c.0 == x,
            size_x >= 1 && -half(y as int) - size_x <= x < 2 * size_x - half(y as int) ==> in_row(
                c.0 as int,
                y as int,
                size_x as int,
            ),
    {
        let h: i64 = Hex::half_of(y);
        let wide: i64 = x as i64;
        let width: i64 = size_x as i64;
        if wide < -h {
            ((wide + width) as i32, y)
        } else if wide >= width - h {
            ((wide - width) as i32, y)
        } else {
            (x, y)
        }
    }
}

} // verus!
