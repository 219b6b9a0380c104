use enigmap::generators::{clear_pass, seed_to_rng_seed, MapGen};
use enigmap::hex::{CITY, HILL, RIVER, ROAD};
use enigmap::{Decor, Hex, HexMap, HexType};

#[test]
fn gen_debug() {
    let mut map = HexMap::new(100, 75);
    let gen = enigmap::generators::Debug::default();
    gen.generate(&mut map);
}

#[test]
fn test_card_has_bands_of_two_rows() {
    let mut map = HexMap::new(10, 26);
    enigmap::generators::Debug::default().generate(&mut map);
    assert_eq!(map.field[0].terrain_type, HexType::Field);
    assert_eq!(map.field[19].terrain_type, HexType::Field);
    assert_eq!(map.field[20].terrain_type, HexType::Forest);
    assert_eq!(map.field[235].terrain_type, HexType::Grassland);
    // row 24, column 5: red 5 * 255 / 10, green 24 * 255 / 26
    assert_eq!(map.field[245].terrain_type, HexType::Debug(127, 235, 0));
    // coordinates stay
    assert_eq!((map.field[245].x, map.field[245].y), (5 - 12, 24));
}

#[test]
fn new_map_has_tiles_at_their_coordinates() {
    let map = HexMap::new(4, 4);
    assert_eq!(map.field.len(), 16);
    assert_eq!((map.field[0].x, map.field[0].y), (0, 0));
    assert_eq!((map.field[4].x, map.field[4].y), (0, 1));
    assert_eq!((map.field[8].x, map.field[8].y), (-1, 2));
    assert_eq!((map.field[15].x, map.field[15].y), (2, 3));
    assert!(map.field.iter().all(|hex| hex.terrain_type == HexType::Water));
    assert_eq!(map.get_area(), 16);
    assert_eq!(HexMap::new(5, 8).get_avg_size(), 6);
}

#[test]
fn coordinates_round_trip() {
    let map = HexMap::new(7, 5);
    for i in 0..35u32 {
        let (x, y) = map.index_to_coords(i);
        assert_eq!(map.coords_to_index(x, y), Some(i as usize));
        assert_eq!(HexMap::index_to_coords_unchecked(i, 7), (x, y));
    }
    for y in 0..5 {
        for x in -(y / 2)..(7 - y / 2) {
            let index = map.coords_to_index(x, y).unwrap();
            assert_eq!(map.index_to_coords(index as u32), (x, y));
        }
    }
}

#[test]
fn rows_off_the_map_have_no_index() {
    let map = HexMap::new(4, 4);
    assert_eq!(map.coords_to_index(0, -1), None);
    assert_eq!(map.coords_to_index(4, -1), None);
    assert_eq!(map.coords_to_index(0, 4), None);
    assert_eq!(map.coords_to_index(-1, 0), None);
    assert_eq!(map.coords_to_index(2, 3), Some(15));
    assert_eq!(map.coords_to_index(3, 3), None);
    assert!(map.get_hex(0, 4).is_none());
    assert_eq!(map.get_hex(-1, 2).map(|hex| (hex.x, hex.y)), Some((-1, 2)));
}

#[test]
fn tiles_are_set_and_changed_in_place() {
    let mut map = HexMap::new(4, 4);
    let mut hex = Hex::from_coords(0, 1);
    hex.terrain_type = HexType::Forest;
    map.set_hex(0, 1, hex);
    assert_eq!(map.field[4].terrain_type, HexType::Forest);
    map.set_hex(0, 9, hex);
    assert_eq!(map.field.len(), 16);
    if let Some(tile) = map.get_hex_mut(1, 1) {
        tile.terrain_type = HexType::Ice;
    }
    assert_eq!(map.field[5].terrain_type, HexType::Ice);
    assert!(map.get_hex_mut(0, -1).is_none());
    map.fill(HexType::Desert);
    assert!(map.field.iter().all(|hex| hex.terrain_type == HexType::Desert));
    assert_eq!((map.field[8].x, map.field[8].y), (-1, 2));
}

#[test]
fn remap_keeps_what_fits() {
    let mut map = HexMap::new(3, 2);
    for (i, hex) in map.field.iter_mut().enumerate() {
        hex.terrain_type = HexType::from_index(i as i32);
    }
    map.remap(4, 3, HexType::Ice);
    assert_eq!((map.size_x, map.size_y), (4, 3));
    let kinds: Vec<i32> = map.field.iter().map(|hex| hex.terrain_type.index()).collect();
    assert_eq!(kinds, vec![0, 1, 2, 8, 3, 4, 5, 8, 8, 8, 8, 8]);
    for i in 0..12u32 {
        let hex = map.field[i as usize];
        assert_eq!((hex.x, hex.y), map.index_to_coords(i));
    }
    map.remap(2, 2, HexType::Ice);
    let kinds: Vec<i32> = map.field.iter().map(|hex| hex.terrain_type.index()).collect();
    assert_eq!(kinds, vec![0, 1, 3, 4]);
    map.resize(3, 3);
    assert_eq!(map.field.len(), 9);
    assert!(map.field.iter().all(|hex| hex.terrain_type == HexType::Water));
}

#[test]
fn generators_share_their_helpers() {
    let gen = enigmap::generators::Debug::default();
    assert_eq!(gen.seed_to_rng_seed(0x0403_0201), seed_to_rng_seed(0x0403_0201));
    let mut map = HexMap::new(5, 5);
    map.fill(HexType::Ocean);
    let mut hex = map.field[12];
    hex.terrain_type = HexType::Field;
    map.set_hex(hex.x, hex.y, hex);
    gen.clear_pass(&mut map, HexType::Field, HexType::Water, 5);
    assert_eq!(map.field[12].terrain_type, HexType::Water);
}

#[test]
fn seed_is_stretched_byte_by_byte() {
    let bytes = seed_to_rng_seed(0x0403_0201);
    assert_eq!(&bytes[0..8], &[1, 4, 3, 2, 1, 4, 3, 2]);
    assert_eq!(bytes[31], 2);
    assert_eq!(seed_to_rng_seed(0), [0u8; 32]);
}

#[test]
fn clearing_turns_lone_tiles() {
    let mut map = HexMap::new(5, 5);
    map.fill(HexType::Ocean);
    let mut hex = map.field[12];
    hex.terrain_type = HexType::Field;
    map.set_hex(hex.x, hex.y, hex);
    let mut hex = map.field[0];
    hex.terrain_type = HexType::Field;
    map.set_hex(hex.x, hex.y, hex);
    // tile 12 differs from six neighbours, tile 0 from four
    clear_pass(&mut map, HexType::Field, HexType::Water, 4);
    assert_eq!(map.field[12].terrain_type, HexType::Water);
    assert_eq!(map.field[0].terrain_type, HexType::Field);
    assert_eq!(map.field[11].terrain_type, HexType::Ocean);
}

#[test]
fn kinds_are_numbered() {
    assert_eq!(HexType::get_num_variants(), 13);
    for i in 0..13 {
        assert_eq!(HexType::from_index(i).index(), i);
    }
    assert_eq!(HexType::from_index(12), HexType::Debug(0, 0, 0));
    assert_eq!(HexType::from_index(5), HexType::Ocean);
    assert_eq!(HexType::Swamp.name(), "Swamp");
    assert_eq!(HexType::Debug(1, 2, 3).name(), "Debug");
    assert_eq!(HexType::from_name("Mountain"), Some(HexType::Mountain));
    assert_eq!(HexType::from_name("Grassland"), Some(HexType::Grassland));
    assert_eq!(HexType::from_name("Debug"), None);
    assert_eq!(HexType::from_name("mountain"), None);
}

#[test]
fn decor_is_a_set_of_features() {
    let mut decor = Decor::empty();
    assert!(decor.is_empty());
    decor.insert(RIVER | ROAD);
    assert!(decor.contains(RIVER));
    assert!(decor.contains(ROAD | RIVER));
    assert!(!decor.contains(CITY));
    decor.remove(RIVER);
    assert_eq!(decor.bits(), ROAD);
    assert_eq!(Decor::from_bits(HILL | CITY), Some(Decor { bits: HILL | CITY }));
    assert_eq!(Decor::from_bits(0b0100_0000), None);
    assert_eq!(Decor::default(), Decor::empty());
    assert_eq!(Hex::default(), Hex::from_coords(0, 0));
}
