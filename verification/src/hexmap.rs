//! The map: a row-major field of tiles.

use vstd::prelude::*;
use vstd::arithmetic::div_mod::lemma_fundamental_div_mod_converse;
use vstd::arithmetic::div_mod::lemma_fundamental_div_mod;
use vstd::arithmetic::div_mod::lemma_div_pos_is_pos;
use vstd::arithmetic::div_mod::lemma_mod_bound;
use vstd::arithmetic::mul::lemma_mul_inequality;
use vstd::arithmetic::mul::lemma_mul_is_commutative;
use crate::hex::{half, in_row, Decor, Hex, HexType};

verus! {

/// Largest number of tiles a map may hold. Within it every coordinate of the
/// map, and every index, fits a 32-bit integer with room to spare.
pub const MAX_AREA: u32 = 0x1000_0000;

/// A map of `size_x` by `size_y` tiles.
#[derive(Debug, Clone)]
pub struct HexMap {
    /// Number of tiles in a row.
    pub size_x: u32,
    /// Number of rows.
    pub size_y: u32,
    /// The tiles, row after row from the top, each row from the left.
    pub field: Vec<Hex>,
}

/// Position in the field of the tile at `(x, y)`.
pub open spec fn cell_index(x: int, y: int, size_x: int) -> int {
    y * size_x + x + half(y)
}

/// Coordinates of the tile at position `i` of the field.
pub open spec fn index_coords(i: int, size_x: int) -> (int, int) {
    let line = i / size_x;
    (i - line * size_x - line / 2, line)
}

/// The tile that a new map holds at position `i`.
pub open spec fn fresh_tile(i: int, size_x: int) -> Hex {
    Hex {
        x: index_coords(i, size_x).0 as i32,
        y: index_coords(i, size_x).1 as i32,
        terrain_type: HexType::Water,
        decor: Decor { bits: 0 },
    }
}

/// Every index below the area names a tile whose coordinates lead back to it.
pub proof fn lemma_index_round_trip(i: int, size_x: int, size_y: int)
    requires
        1 <= size_x,
        0 <= i < size_x * size_y,
    ensures
        0 <= index_coords(i, size_x).1 < size_y,
        in_row(index_coords(i, size_x).0, index_coords(i, size_x).1, size_x),
        cell_index(index_coords(i, size_x).0, index_coords(i, size_x).1, size_x) == i,
        0 <= index_coords(i, size_x).1 <= i,
        -i <= index_coords(i, size_x).0 <= i,
{
    let line = i / size_x;
    lemma_fundamental_div_mod(i, size_x);
    lemma_mod_bound(i, size_x);
    lemma_div_pos_is_pos(i, size_x);
    lemma_mul_is_commutative(size_x, line);
    assert(i == line * size_x + i % size_x);
    assert(line < size_y) by (nonlinear_arith)
        requires
            line * size_x <= i,
            i < size_x * size_y,
            size_x >= 1,
    ;
    assert(line * size_x >= line) by (nonlinear_arith)
        requires
            line >= 0,
            size_x >= 1,
    ;
}

/// Coordinate round-trip: the index of a tile of the map lies within the area
/// and leads back to the tile's coordinates.
pub proof fn lemma_coords_round_trip(x: int, y: int, size_x: int, size_y: int)
    requires
        1 <= size_x,
        0 <= y < size_y,
        in_row(x, y, size_x),
    ensures
        0 <= cell_index(x, y, size_x) < size_x * size_y,
        index_coords(cell_index(x, y, size_x), size_x) == (x, y),
{
    let i = cell_index(x, y, size_x);
    let col = x + half(y);
    lemma_fundamental_div_mod_converse(i, size_x, y, col);
    assert((y + 1) * size_x <= size_y * size_x) by {
        lemma_mul_inequality(y + 1, size_y, size_x);
    }
    assert((y + 1) * size_x == y * size_x + size_x) by (nonlinear_arith);
    assert(size_y * size_x == size_x * size_y) by (nonlinear_arith);
    assert(y * size_x >= 0) by (nonlinear_arith)
        requires
            y >= 0,
            size_x >= 1,
    ;
}

/// The tile in column `col` of row `row` has the coordinates
/// `(col - row / 2, row)`, however wide the map.
pub proof fn lemma_place_coords(col: int, row: int, size_x: int)
    requires
        0 <= col < size_x,
        0 <= row,
    ensures
        index_coords(row * size_x + col, size_x) == (col - row / 2, row),
        0 <= row * size_x,
{
    lemma_fundamental_div_mod_converse(row * size_x + col, size_x, row, col);
    assert(0 <= row * size_x) by (nonlinear_arith)
        requires
            0 <= row,
            0 <= size_x,
    ;
}

/// The tile that a map `new_x` wide holds at position `i` once it is
/// remapped from `field`, which was `old_x` wide and `old_y` high: the tile
/// that stood in the same column and row, or where none stood there a new
/// tile of the terrain `extension`.
pub open spec fn remapped_tile(
    field: Seq<Hex>,
    old_x: int,
    old_y: int,
    new_x: int,
    extension: HexType,
    i: int,
) -> Hex {
    let row = i / new_x;
    let col = i % new_x;
    if col < old_x && row < old_y {
        field[row * old_x + col]
    } else {
        Hex { terrain_type: extension, ..fresh_tile(i, new_x) }
    }
}

/// Coordinate round-trip on a map: a tile of the map has an index, and the
/// coordinates of that index are the tile's own.
pub proof fn lemma_round_trip(map: &HexMap, x: int, y: int)
    requires
        map.sized(),
        map.has_cell(x, y),
    ensures
        map.index_of(x, y).is_some(),
        index_coords(map.index_of(x, y).unwrap() as int, map.size_x as int) == (x, y),
{
    lemma_coords_round_trip(x, y, map.size_x as int, map.size_y as int);
}

impl HexMap {
    /// Number of tiles.
    pub open spec fn area(&self) -> int {
        self.size_x * self.size_y
    }

    /// Both sizes are positive, the area is within `MAX_AREA`, and the field
    /// holds one tile for each index.
    pub open spec fn sized(&self) -> bool {
        &&& 1 <= self.size_x
        &&& 1 <= self.size_y
        &&& self.area() <= MAX_AREA
        &&& self.field.len() == self.area()
    }

    /// The map is sized and each tile carries the coordinates of its place.
    pub open spec fn wf(&self) -> bool {
        &&& self.sized()
        &&& forall|i: int|
            0 <= i < self.field.len() ==> (#[trigger] self.field[i].x as int, self.field[i].y as int)
                == index_coords(i, self.size_x as int)
    }

    /// Whether `(x, y)` names a tile of the map.
    pub open spec fn has_cell(&self, x: int, y: int) -> bool {
        0 <= y < self.size_y && in_row(x, y, self.size_x as int)
    }

    /// The index that `coords_to_index` gives: none outside the rows of the
    /// map, and none where the position falls outside the field.
    pub open spec fn index_of(&self, x: int, y: int) -> Option<usize> {
        let i = cell_index(x, y, self.size_x as int);
        if 0 <= y < self.size_y && 0 <= i < self.area() {
            Some(i as usize)
        } else {
            None
        }
    }

    /// A map of the given size, each tile under water at its coordinates.
    pub fn new(size_x: u32, size_y: u32) -> (map: HexMap)
        requires
            size_x != 0,
            size_y != 0,
            size_x * size_y <= MAX_AREA,
        ensures
            map.wf(),
            map.size_x == size_x,
            map.size_y == size_y,
            forall|i: int| 0 <= i < map.area() ==> #[trigger] map.field[i] == fresh_tile(i, size_x as int),
    {
        let field = HexMap::new_field(size_x, size_y);
        let map = HexMap { size_x, size_y, field };
        proof {
            assert forall|i: int| 0 <= i < map.field.len() implies (
                #[trigger] map.field[i].x as int,
                map.field[i].y as int,
            ) == index_coords(i, map.size_x as int) by {
                lemma_index_round_trip(i, size_x as int, size_y as int);
            }
        }
        map
    }

    /// Index in the field of the tile at `(x, y)`.
    pub fn coords_to_index(&self, x: i32, y: i32) -> (index: Option<usize>)
        requires
            self.sized(),
        ensures
            index == self.index_of(x as int, y as int),
    {
        if y < 0 || y as i64 >= self.size_y as i64 {
            return None;
        }
        let area: i64 = self.size_x as i64 * self.size_y as i64;
        assert(y as int * self.size_x as int <= self.size_y as int * self.size_x as int)
            by (nonlinear_arith)
            requires
                0 <= y as int <= self.size_y as int,
                0 <= self.size_x as int,
        ;
        assert(y as int * self.size_x as int >= 0) by (nonlinear_arith)
            requires
                0 <= y as int,
                0 <= self.size_x as int,
        ;
        assert(self.size_y as int * self.size_x as int == self.size_x as int * self.size_y as int)
            by (nonlinear_arith);
        let index: i64 = y as i64 * self.size_x as i64 + x as i64 + (y / 2) as i64;
        if index < 0 || index >= area {
            return None;
        }
        Some(index as usize)
    }

    /// Coordinates of the tile at index `i`.
    pub fn index_to_coords(&self, i: u32) -> (c: (i32, i32))
        requires
            self.sized(),
            i < self.area(),
        ensures
            (c.0 as int, c.1 as int) == index_coords(i as int, self.size_x as int),
            self.has_cell(c.0 as int, c.1 as int),
            self.index_of(c.0 as int, c.1 as int) == Some(i as usize),
    {
        proof {
            lemma_index_round_trip(i as int, self.size_x as int, self.size_y as int);
        }
        HexMap::index_to_coords_unchecked(i, self.size_x)
    }

    /// Coordinates of the tile at index `i` in a map `size_x` wide, however
    /// many rows the map has.
    pub fn index_to_coords_unchecked(i: u32, size_x: u32) -> (c: (i32, i32))
        requires
            size_x != 0,
            i <= i32::MAX,
        ensures
            (c.0 as int, c.1 as int) == index_coords(i as int, size_x as int),
    {
        let line: u32 = i / size_x;
        proof {
            lemma_fundamental_div_mod(i as int, size_x as int);
            lemma_mod_bound(i as int, size_x as int);
            lemma_mul_is_commutative(size_x as int, line as int);
            assert(line * size_x >= line) by (nonlinear_arith)
                requires
                    line >= 0,
                    size_x >= 1,
            ;
        }
        let pos: i64 = i as i64 - line as i64 * size_x as i64 - (line / 2) as i64;
        (pos as i32, line as i32)
    }

    /// Number of tiles.
    pub fn get_area(&self) -> (a: u32)
        requires
            self.sized(),
        ensures
            a == self.area(),
    {
        self.size_x * self.size_y
    }

    /// Mean of the two sizes, rounded down.
    pub fn get_avg_size(&self) -> (a: u32)
        requires
            self.sized(),
        ensures
            a == (self.size_x + self.size_y) / 2,
    {
        assert(self.size_x <= self.area() && self.size_y <= self.area()) by (nonlinear_arith)
            requires
                1 <= self.size_x,
                1 <= self.size_y,
                self.area() == self.size_x * self.size_y,
        ;
        (self.size_x + self.size_y) / 2
    }

    /// The tile at `(x, y)`, if the map has one there.
    pub fn get_hex(&self, x: i32, y: i32) -> (hex: Option<&Hex>)
        requires
            self.sized(),
        ensures
            match self.index_of(x as int, y as int) {
                Some(i) => hex == Some(&self.field[i as int]),
                None => hex.is_none(),
            },
    {
        let index = self.coords_to_index(x, y);
        match index {
            Some(idx) => Some(&self.field[idx]),
            None => None,
        }
    }

    /// The tile at `(x, y)`, to be changed in place, if the map has one
    /// there.
    pub fn get_hex_mut(&mut self, x: i32, y: i32) -> (hex: Option<&mut Hex>)
        requires
            old(self).sized(),
        ensures
            final(self).size_x == old(self).size_x,
            final(self).size_y == old(self).size_y,
            match old(self).index_of(x as int, y as int) {
                Some(i) => {
                    &&& hex.is_some()
                    &&& *hex.unwrap() == old(self).field[i as int]
                    &&& final(self).field@ == old(self).field@.update(
                        i as int,
                        *final(hex.unwrap()),
                    )
                },
                None => hex.is_none() && final(self).field@ == old(self).field@,
            },
    {
        let index = self.coords_to_index(x, y);
        match index {
            Some(idx) => Some(&mut self.field[idx]),
            None => None,
        }
    }

    /// Puts `hex` in the place of the tile at `(x, y)`; does nothing where
    /// the map has no tile there.
    pub fn set_hex(&mut self, x: i32, y: i32, hex: Hex)
        requires
            old(self).sized(),
        ensures
            final(self).size_x == old(self).size_x,
            final(self).size_y == old(self).size_y,
            match old(self).index_of(x as int, y as int) {
                Some(i) => final(self).field@ == old(self).field@.update(i as int, hex),
                None => final(self).field@ == old(self).field@,
            },
    {
        let index = self.coords_to_index(x, y);
        if let Some(idx) = index {
            self.field.set(idx, hex);
        }
    }

    /// Gives every tile the terrain `hextype`.
    pub fn fill(&mut self, hextype: HexType)
        ensures
            final(self).size_x == old(self).size_x,
            final(self).size_y == old(self).size_y,
            final(self).field.len() == old(self).field.len(),
            forall|i: int|
                0 <= i < old(self).field.len() ==> #[trigger] final(self).field[i] == (Hex {
                    terrain_type: hextype,
                    ..old(self).field[i]
                }),
    {
        let n = self.field.len();
        let mut i: usize = 0;
        while i < n
            invariant
                i <= n,
                n == self.field.len(),
                self.field.len() == old(self).field.len(),
                self.size_x == old(self).size_x,
                self.size_y == old(self).size_y,
                forall|j: int|
                    0 <= j < i ==> #[trigger] self.field[j] == (Hex {
                        terrain_type: hextype,
                        ..old(self).field[j]
                    }),
                forall|j: int| i <= j < n ==> #[trigger] self.field[j] == old(self).field[j],
            decreases n - i,
        {
            let mut hex = self.field[i];
            hex.terrain_type = hextype;
            self.field.set(i, hex);
            i += 1;
        }
    }

    /// Gives the map a new size and new tiles, each under water at its
    /// coordinates. Nothing of the old map is kept.
    pub fn resize(&mut self, new_x: u32, new_y: u32)
        requires
            new_x != 0,
            new_y != 0,
            new_x * new_y <= MAX_AREA,
        ensures
            final(self).wf(),
            final(self).size_x == new_x,
            final(self).size_y == new_y,
            forall|i: int|
                0 <= i < final(self).area() ==> #[trigger] final(self).field[i] == fresh_tile(
                    i,
                    new_x as int,
                ),
    {
        let fresh = HexMap::new(new_x, new_y);
        self.size_x = new_x;
        self.size_y = new_y;
        self.field = fresh.field;
    }

    /// Gives the map a new size and keeps what fits: a tile stays in its
    /// column and row, and where the map grows the new tiles are of the
    /// terrain `extension`.
    pub fn remap(&mut self, new_x: u32, new_y: u32, extension: HexType)
        requires
            old(self).wf(),
            new_x != 0,
            new_y != 0,
            new_x * new_y <= MAX_AREA,
        ensures
            final(self).wf(),
            final(self).size_x == new_x,
            final(self).size_y == new_y,
            forall|i: int|
                0 <= i < new_x * new_y ==> #[trigger] final(self).field[i] == remapped_tile(
                    old(self).field@,
                    old(self).size_x as int,
                    old(self).size_y as int,
                    new_x as int,
                    extension,
                    i,
                ),
    {
        let old_x = self.size_x;
        let old_y = self.size_y;
        let size: u32 = new_x * new_y;
        let mut field: Vec<Hex> = Vec::with_capacity(size as usize);
        let mut i: u32 = 0;
        while i < size
            invariant
                i <= size,
                size == new_x * new_y,
                size <= MAX_AREA,
                new_x != 0,
                self.wf(),
                *self == *old(self),
                old_x == self.size_x,
                old_y == self.size_y,
                field.len() == i,
                forall|j: int|
                    0 <= j < i ==> #[trigger] field[j] == remapped_tile(
                        self.field@,
                        old_x as int,
                        old_y as int,
                        new_x as int,
                        extension,
                        j,
                    ),
                forall|j: int|
                    0 <= j < i ==> (#[trigger] field[j].x as int, field[j].y as int) == index_coords(
                        j,
                        new_x as int,
                    ),
            decreases size - i,
        {
            let row = i / new_x;
            let col = i % new_x;
            proof {
                lemma_fundamental_div_mod(i as int, new_x as int);
                lemma_mul_is_commutative(new_x as int, row as int);
                lemma_place_coords(col as int, row as int, new_x as int);
                lemma_index_round_trip(i as int, new_x as int, new_y as int);
            }
            if col < old_x && row < old_y {
                proof {
                    lemma_place_coords(col as int, row as int, old_x as int);
                    assert(row * old_x + col < old_x * old_y) by (nonlinear_arith)
                        requires
                            0 <= col < old_x,
                            0 <= row < old_y,
                    ;
                }
                let at = row * old_x + col;
                field.push(self.field[at as usize]);
            } else {
                let c = HexMap::index_to_coords_unchecked(i, new_x);
                let mut hex = Hex::from_coords(c.0, c.1);
                hex.terrain_type = extension;
                field.push(hex);
            }
            i += 1;
        }
        self.size_x = new_x;
        self.size_y = new_y;
        self.field = field;
    }

    /// The field of a new map `x` wide and `y` high.
    pub fn new_field(x: u32, y: u32) -> (field: Vec<Hex>)
        requires
            x != 0,
            x * y <= MAX_AREA,
        ensures
            field.len() == x * y,
            forall|i: int| 0 <= i < field.len() ==> #[trigger] field[i] == fresh_tile(i, x as int),
    {
        let size: u32 = x * y;
        let mut field: Vec<Hex> = Vec::with_capacity(size as usize);
        let mut i: u32 = 0;
        while i < size
            invariant
                i <= size,
                size <= MAX_AREA,
                x != 0,
                field.len() == i,
                forall|j: int| 0 <= j < i ==> #[trigger] field[j] == fresh_tile(j, x as int),
            decreases size - i,
        {
            let c = HexMap::index_to_coords_unchecked(i, x);
            field.push(Hex::from_coords(c.0, c.1));
            i += 1;
        }
        field
    }
}

} // verus!
