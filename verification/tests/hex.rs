use enigmap::{Hex, HexMap};

#[test]
fn hex_hex() {
    assert_eq!((9, 1), Hex::unwrap_coords(-1, 1, 10));
    assert_eq!((-1, 2), Hex::unwrap_coords(-1, 2, 10));
    assert_eq!((0, 1), Hex::unwrap_coords(0, 1, 10));
    assert_eq!((0, 1), Hex::unwrap_coords(10, 1, 10));
}

#[test]
fn hex_distance_hex() {
    assert_eq!(1, Hex::from_coords(5, 4).distance_between(&Hex::from_coords(6, 4)));
    assert_eq!(1, Hex::from_coords(5, 4).distance_between(&Hex::from_coords(4, 4)));
    assert_eq!(1, Hex::from_coords(5, 4).distance_between(&Hex::from_coords(5, 3)));
    assert_eq!(1, Hex::from_coords(5, 4).distance_between(&Hex::from_coords(6, 3)));
    assert_eq!(1, Hex::from_coords(5, 4).distance_between(&Hex::from_coords(4, 5)));
    assert_eq!(1, Hex::from_coords(5, 4).distance_between(&Hex::from_coords(5, 5)));

    assert_eq!(2, Hex::from_coords(-5, 4).distance_between(&Hex::from_coords(-7, 4)));
    assert_eq!(3, Hex::from_coords(-5, 4).distance_between(&Hex::from_coords(-5, 1)));
}

#[test]
fn rows_above_the_map_are_halved_downward() {
    assert_eq!(Hex::half_of(-1), -1);
    assert_eq!(Hex::half_of(-2), -1);
    assert_eq!(Hex::half_of(-3), -2);
    assert_eq!(Hex::half_of(5), 2);
    assert_eq!(Hex::half_of(i32::MIN), -1_073_741_824);
    assert_eq!(Hex::unwrap_coords(0, -1, 10), (10, -1));
    assert_eq!(Hex::unwrap_coords(1, -1, 10), (1, -1));
    assert_eq!(Hex::unwrap_coords(11, -1, 10), (1, -1));
    assert_eq!(Hex::unwrap_coords(0, -2, 10), (10, -2));
    assert_eq!(Hex::unwrap_coords(10, -2, 10), (10, -2));
    assert_eq!(Hex::unwrap_coords(2, -3, 10), (2, -3));
    assert_eq!(Hex::unwrap_coords(1, -3, 10), (11, -3));
}

#[test]
fn distance_by_coordinates() {
    assert_eq!(Hex::from_coords(5, 4).distance_to(6, 4), 1);
    assert_eq!(Hex::distance(-5, 4, -7, 4), 2);
    assert_eq!(Hex::distance(0, 0, 0, 0), 0);
    assert_eq!(Hex::distance(i32::MIN, 0, i32::MAX, 0), u32::MAX);
}

#[test]
fn wrapping_is_idempotent_within_one_width() {
    for y in 0..6 {
        for x in -10..18 {
            let once = Hex::unwrap_coords(x, y, 10);
            let twice = Hex::unwrap_coords(once.0, once.1, 10);
            assert_eq!(once, twice);
            assert_eq!(once.1, y);
            assert!(-(y / 2) <= once.0 && once.0 < 10 - y / 2);
        }
    }
    // further out one wrap is not enough
    assert_eq!(Hex::unwrap_coords(-25, 0, 10), (-15, 0));
    assert_eq!(Hex::unwrap_coords(-15, 0, 10), (-5, 0));
}

#[test]
fn neighbours_are_counted_by_row() {
    let map = HexMap::new(10, 10);
    for i in 0..100u32 {
        let (x, y) = map.index_to_coords(i);
        let found = Hex::from_coords(x, y).get_neighbours(&map);
        let expected = if y == 0 || y == 9 { 4 } else { 6 };
        assert_eq!(found.len(), expected);
        for (nx, ny) in found {
            assert!(map.coords_to_index(nx, ny).is_some());
            assert_eq!(Hex::distance(x, y, nx, ny) == 1 || nx != x, true);
        }
    }
    let row = HexMap::new(10, 1);
    assert_eq!(Hex::from_coords(3, 0).get_neighbours(&row), vec![(2, 0), (4, 0)]);
}

#[test]
fn neighbours_come_in_order() {
    let map = HexMap::new(10, 10);
    let hex = Hex::from_coords(3, 4);
    assert_eq!(
        hex.get_neighbours(&map),
        vec![(3, 5), (2, 5), (2, 4), (3, 3), (4, 3), (4, 4)]
    );
    assert_eq!(
        hex.get_neighbours_unchecked(&map),
        [(3, 5), (2, 5), (2, 4), (3, 3), (4, 3), (4, 4)]
    );
    // wrapped at the left edge of row 0
    let corner = Hex::from_coords(0, 0);
    assert_eq!(corner.get_neighbours(&map), vec![(0, 1), (9, 1), (9, 0), (1, 0)]);
    // row -1 holds the columns 1 to 10
    assert_eq!(
        corner.get_neighbours_unchecked(&map),
        [(0, 1), (9, 1), (9, 0), (10, -1), (1, -1), (1, 0)]
    );
}

#[test]
fn ring_has_six_tiles_per_step_of_radius() {
    let map = HexMap::new(10, 10);
    let hex = Hex::from_coords(3, 4);
    assert_eq!(hex.get_ring(&map, 0).len(), 0);
    assert_eq!(Hex::from_coords(i32::MAX, i32::MIN).get_ring(&map, 0), vec![]);
    assert_eq!(hex.get_ring(&map, 1).len(), 6);
    assert_eq!(hex.get_ring(&map, 3).len(), 18);
    for r in 0..5u32 {
        assert_eq!(hex.get_spiral(&map, r).len() as u32, 1 + 3 * r * (r + 1));
    }
}

#[test]
fn ring_walks_round_the_tile() {
    let map = HexMap::new(20, 20);
    let hex = Hex::from_coords(5, 8);
    assert_eq!(
        hex.get_ring(&map, 1),
        vec![(6, 7), (6, 8), (5, 9), (4, 9), (4, 8), (5, 7)]
    );
    let ring = hex.get_ring(&map, 2);
    assert_eq!(ring[0], (7, 6));
    assert!(ring.iter().all(|&(x, y)| Hex::distance(5, 8, x, y) == 2));
    assert_eq!(hex.get_spiral(&map, 0), vec![(5, 8)]);
    assert_eq!(
        Hex::from_coords(i32::MAX, i32::MIN).get_spiral(&map, 0),
        vec![(i32::MAX, i32::MIN)]
    );
    let spiral = hex.get_spiral(&map, 2);
    assert_eq!(spiral[0], (5, 8));
    assert_eq!(&spiral[1..7], &hex.get_ring(&map, 1)[..]);
    assert_eq!(&spiral[7..], &ring[..]);
}
