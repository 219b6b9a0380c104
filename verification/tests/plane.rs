use enigmap::geo::particles::{advect, is_particle_oob, particle_wrap, seed_particles};
use enigmap::geo::plane::{closest_tile, floor_div, height, width, Point, FINE};
use enigmap::{Hex, HexMap};

const RATIO: f64 = 1.154_700_538_38;

/// A length across the map in fine steps.
fn across(x: f64) -> i64 {
    (x * 2.0 * FINE as f64).round() as i64
}

/// A length down the map in fine steps.
fn down(y: f64) -> i64 {
    (y * 4.0 * FINE as f64 / RATIO).round() as i64
}

fn point(x: f64, y: f64) -> Point {
    Point { x: across(x), y: down(y) }
}

fn oob(x: f64, y: f64, size_y: u32) -> bool {
    is_particle_oob(across(x), down(y), size_y)
}

fn wrap(x: f64, y: f64, size_x: u32) -> i64 {
    particle_wrap(across(x), down(y), size_x)
}

#[test]
fn closest_hex() {
    let hexmap = HexMap::new(4, 4);
    assert_eq!(8, hexmap.get_closest_hex_index(across(0.6), down(1.8)));
    assert_eq!(4, hexmap.get_closest_hex_index(across(0.63), down(1.8)));
}

#[test]
fn every_tile_is_nearest_to_its_centre() {
    let map = HexMap::new(5, 4);
    for (index, hex) in map.field.iter().enumerate() {
        let c = hex.center();
        assert_eq!(closest_tile(&map, c), index);
        assert_eq!(map.get_closest_hex_index_wrapped(c.x, c.y), index);
    }
    assert_eq!(Hex::from_coords(0, 0).center(), Point { x: 1_000, y: 2_000 });
    assert_eq!(Hex::from_coords(0, 1).center(), Point { x: 2_000, y: 5_000 });
    assert_eq!(Hex::from_coords(-1, 2).center(), Point { x: 1_000, y: 8_000 });
    // above the map: x + floor(y / 2) + 1 for an odd row
    assert_eq!(Hex::from_coords(1, -1).center(), Point { x: 2_000, y: -1_000 });
    assert_eq!(Hex::from_coords(1, -2).center(), Point { x: 1_000, y: -4_000 });
    assert_eq!(Hex::from_coords(5, 4), Hex::from_coords(5, 4));
    assert_eq!(Hex::from_coords(5, 4).center(), point(7.5, 4.0 * RATIO * 0.75 + RATIO / 2.0));
}

#[test]
fn geo_particle_oob() {
    // test top
    assert_eq!(true, oob(0.0, 0.2, 4));
    assert_eq!(false, oob(0.5, 0.01, 3));
    assert_eq!(true, oob(1.0, 0.2, 2));
    assert_eq!(false, oob(0.0, 1.0, 7));
    assert_eq!(false, oob(0.5, 0.5, 8));

    // test bottom
    assert_eq!(true, oob(1.573, 3.526, 4));
    assert_eq!(true, oob(2.2, 3.668, 4));
    assert_eq!(true, oob(2.0301, 4.3526, 5));
    assert_eq!(true, oob(2.8279, 4.4536, 5));
    assert_eq!(false, oob(1.917, 3.684, 4));
    assert_eq!(false, oob(2.396, 3.514, 4));
    assert_eq!(false, oob(2.3679, 4.5228, 5));
    assert_eq!(false, oob(2.8891, 4.3792, 5));
}

#[test]
fn geo_particle_wrap() {
    // areas
    // 1   /
    // 2  |
    // 3   \
    // 4   |

    // test area 1
    // wrap left
    assert_eq!(across(0.2), wrap(3.2, 3.65, 3));
    assert_eq!(across(3.15), wrap(3.15, 3.65, 3));
    // wrap right
    assert_eq!(across(7.4), wrap(0.4, 3.5, 7));
    assert_eq!(across(0.45), wrap(0.45, 3.5, 7));

    // test area 2
    // wrap left
    assert_eq!(across(1.0), wrap(4.0, 9.0, 3));
    assert_eq!(across(2.9), wrap(2.9, 9.0, 3));
    // wrap right
    assert_eq!(across(6.8), wrap(-0.2, 9.0, 7));
    assert_eq!(across(0.2), wrap(0.2, 9.0, 7));

    // test area 3
    // wrap left
    assert_eq!(across(0.3), wrap(3.3, 4.5, 3));
    assert_eq!(across(3.28), wrap(3.28, 4.5, 3));
    // wrap right
    assert_eq!(across(7.28), wrap(0.28, 4.5, 7));
    assert_eq!(across(0.3), wrap(0.3, 4.5, 7));

    // test area 4
    // wrap left
    assert_eq!(across(1.0), wrap(4.0, 10.0, 3));
    assert_eq!(across(3.0), wrap(3.0, 10.0, 3));
    // wrap right
    assert_eq!(across(7.2), wrap(0.2, 10.0, 7));
    assert_eq!(across(0.7), wrap(0.7, 10.0, 7));
}

#[test]
fn nearest_tile_is_found_among_all() {
    let map = HexMap::new(7, 6);
    let gap = |p: Point, i: i64| {
        let (col, row) = (i % 7, i / 7);
        let dx = (p.x - FINE * (2 * col + 1 + row % 2)) as i128;
        let dy = (p.y - FINE * (3 * row + 2)) as i128;
        3 * dx * dx + dy * dy
    };
    let mut y = -9_000;
    while y < 30_000 {
        let mut x = -5_000;
        while x < 21_000 {
            let p = Point { x, y };
            let expected = (0..42).min_by_key(|&i| (gap(p, i), i)).unwrap();
            assert_eq!(closest_tile(&map, p) as i64, expected);
            x += 331;
        }
        y += 257;
    }
    // the centre of a tile is nearest to that tile, a point midway between
    // two centres to the earlier
    assert_eq!(closest_tile(&map, Point { x: 3 * FINE, y: 2 * FINE }), 1);
    assert_eq!(closest_tile(&map, Point { x: 2 * FINE, y: 2 * FINE }), 0);
}

#[test]
fn map_extends_over_the_plane() {
    let map = HexMap::new(4, 3);
    assert_eq!(width(&map), 9 * FINE);
    assert_eq!(height(&map), 10 * FINE);
    assert_eq!(floor_div(7, 2), 3);
    assert_eq!(floor_div(-7, 2), -4);
    assert_eq!(floor_div(-8, 2), -4);
    assert_eq!(floor_div(0, 5), 0);
}

#[test]
fn particles_start_on_a_grid() {
    let map = HexMap::new(2, 1);
    let particles = seed_particles(&map, 2);
    // 4 columns of 82 particles
    assert_eq!(particles.len(), 4 * 82);
    assert_eq!(particles[0], Point { x: 0, y: -69_280 });
    assert_eq!(particles[40], Point { x: 0, y: 0 });
    assert_eq!(particles[41], Point { x: 0, y: 1_732 });
    assert_eq!(particles[82], Point { x: 1_000, y: -69_280 });
    assert_eq!(particles[327], Point { x: 3_000, y: 71_012 });
}

#[test]
fn a_step_moves_a_particle_and_wraps_it() {
    // pressure of one to the right, jitter of one: a whole unit of length
    let p = Point { x: 3_000, y: 2_000 };
    assert_eq!(advect(p, (10_000, 0), (1_000, 1_000), 10), Point { x: 5_000, y: 2_000 });
    // down the map a unit of length is RISE steps
    assert_eq!(advect(p, (0, 10_000), (1_000, 1_000), 10), Point { x: 3_000, y: 5_464 });
    // jitter scales the step, toward zero
    assert_eq!(advect(p, (-5_000, -5_000), (900, 1_099), 10), Point { x: 2_100, y: 97 });
    // over the right edge the particle comes back in at the left
    let p = Point { x: 19_500, y: 2_000 };
    assert_eq!(advect(p, (10_000, 0), (1_000, 1_000), 10), Point { x: 1_500, y: 2_000 });
}
