use enigmap::generators::seed_to_rng_seed;
use enigmap::geo::chance::{
    draw_drifts, draw_plate_heights, draw_point, draw_reaches, draw_seeds, drift_particles,
    land_particles, normalize, whole_root,
};
use enigmap::geo::cost::UNIT;
use enigmap::geo::flow::{flow_field, warped};
use enigmap::geo::particles::seed_particles;
use enigmap::geo::plane::{height, width};
use enigmap::geo::plates::{assign_plates, GeoError};
use enigmap::geo::tidy::{rank_tiles, tidy_plates};
use enigmap::geo::Geo;
use enigmap::{HexMap, HexType};
use noise::{Fbm, NoiseFn};
use rand::rngs::StdRng;
use rand::SeedableRng;

fn sample(gen: &Fbm, x: i64, y: i64) -> i32 {
    (gen.get([x as f64 / 1e6, y as f64 / 1e6]) * UNIT as f64).round() as i32
}

fn noise_flow(map: &HexMap, seed: u32) -> Vec<(i32, i32)> {
    let gen = Fbm::new();
    flow_field(map, seed, &|x, y| sample(&gen, x, y))
}

fn rng(seed: u32) -> StdRng {
    StdRng::from_seed(seed_to_rng_seed(seed))
}

#[test]
fn plates_cover_a_map_of_100_by_75() {
    let map = HexMap::new(100, 75);
    let seed = 20_190_405;
    let mut rng = rng(seed);
    let seeds = draw_seeds(&map, 30, &mut rng);
    assert_eq!(seeds.len(), 30);
    let flow = noise_flow(&map, seed);
    let plates = assign_plates(&map, &flow, &seeds).unwrap();
    assert!(plates.labels.iter().all(|label| label.is_some()));
    assert_eq!(plates.counts.iter().sum::<usize>(), 7500);
    let plates = tidy_plates(&map, &seeds, plates).unwrap();
    assert_eq!(plates.labels.iter().filter(|label| label.is_none()).count(), 0);
    assert!(plates.counts.iter().any(|&count| count > 0));
    assert_eq!(plates.counts.iter().sum::<usize>(), 7500);
    for label in &plates.labels {
        assert!(plates.counts[label.unwrap()] >= 38);
    }
    let (tiles, survivors) = rank_tiles(&plates);
    assert!(survivors >= 1 && survivors <= 30);
    assert!(tiles.iter().all(|&tile| tile < survivors));
}

#[test]
fn a_map_of_100_by_75_is_generated() {
    let mut map = HexMap::new(100, 75);
    let seed = 20_190_405;
    let flow = noise_flow(&map, seed);
    let mut geo = Geo::default();
    geo.set_seed(seed);
    assert_eq!(geo.generate(&mut map, &flow, seed), Ok(()));
    let count = |kind: HexType| map.field.iter().filter(|hex| hex.terrain_type == kind).count();
    let (ocean, water) = (count(HexType::Ocean), count(HexType::Water));
    let (field, mountain) = (count(HexType::Field), count(HexType::Mountain));
    assert_eq!(ocean + water + field + mountain, 7500);
    // half of the tiles lie below the ocean level, at most three in a
    // hundred above the mountain level
    assert!(ocean <= 3750);
    assert!(ocean + water <= 5400);
    assert!(mountain <= 225);
    assert!(field > 0);
    for (index, hex) in map.field.iter().enumerate() {
        assert_eq!((hex.x, hex.y), map.index_to_coords(index as u32));
    }
}

#[test]
fn the_same_seed_gives_the_same_map() {
    let run = |seed: u32| {
        let mut map = HexMap::new(30, 20);
        let flow = noise_flow(&map, seed);
        let mut geo = Geo::default();
        geo.num_plates = 8;
        geo.particle_grid_density = 3;
        let done = geo.generate(&mut map, &flow, seed);
        (done, map.field.iter().map(|hex| hex.terrain_type).collect::<Vec<_>>())
    };
    assert_eq!(run(7), run(7));
}

#[test]
fn settings_out_of_range_are_refused() {
    let mut map = HexMap::new(4, 4);
    let flow = vec![(UNIT, 0); 16];
    let mut geo = Geo::default();
    assert!(geo.check(&map));
    geo.num_plates = 0;
    assert_eq!(geo.generate(&mut map, &flow, 1), Err(GeoError::NoPlates));
    geo.num_plates = 3;
    assert_eq!(geo.generate(&mut map, &vec![(UNIT, 0); 15], 1), Err(GeoError::FlowMismatch));
    geo.particle_grid_density = 0;
    assert!(!geo.check(&map));
    assert_eq!(geo.generate(&mut map, &flow, 1), Err(GeoError::OutOfRange));
    geo.particle_grid_density = 100_000;
    assert!(!geo.check(&map));
    assert_eq!(geo.generate(&mut map, &flow, 1), Err(GeoError::OutOfRange));
    assert!(map.field.iter().all(|hex| hex.terrain_type == HexType::Water));
}

#[test]
fn drawn_numbers_keep_to_their_ranges() {
    let map = HexMap::new(20, 10);
    let mut rng = rng(99);
    let (w, h) = (width(&map), height(&map));
    let mut seen = std::collections::HashSet::new();
    for _ in 0..500 {
        let p = draw_point(&map, &mut rng);
        assert!(0 <= p.x && p.x < w);
        assert!(h / 10 <= p.y && p.y < h * 9 / 10);
        seen.insert((p.x, p.y));
    }
    assert!(seen.len() > 400);
    let heights = draw_plate_heights(1000, &mut rng);
    assert!(heights.iter().all(|&height| height < 1_000_000));
    assert!(heights.iter().any(|&height| height > 500_000));
    assert!(heights.iter().any(|&height| height < 500_000 && height > 0));
    let reaches = draw_reaches(1000, 9, &mut rng);
    assert!(reaches.iter().all(|&reach| 4 <= reach && reach < 9));
    assert!((4..9).all(|reach| reaches.contains(&reach)));
    assert_eq!(draw_reaches(5, 0, &mut rng), vec![0; 5]);
    assert_eq!(draw_reaches(5, 1, &mut rng), vec![0; 5]);
    let drifts = draw_drifts(200, &mut rng);
    for &(x, y) in &drifts {
        let square = x as i64 * x as i64 + y as i64 * y as i64;
        assert!(99_960_000 <= square && square <= 100_030_000);
    }
    assert!(drifts.iter().any(|&(x, _)| x < 0) && drifts.iter().any(|&(_, y)| y < 0));
    let seeds = draw_seeds(&map, 50, &mut rng);
    assert_eq!(seeds.len(), 50);
    assert!(seeds.iter().all(|&seed| seed < 200));
    assert!(seeds.iter().any(|&seed| seed >= 100) && seeds.iter().any(|&seed| seed < 100));
}

#[test]
fn directions_are_brought_to_unit_length() {
    assert_eq!(whole_root(0), 0);
    assert_eq!(whole_root(15), 3);
    assert_eq!(whole_root(16), 4);
    assert_eq!(whole_root(200_000_000), 14_142);
    assert_eq!(whole_root(u64::MAX), 0xffff_ffff);
    assert_eq!(normalize(3, 4), (6_000, 8_000));
    assert_eq!(normalize(-10_000, 0), (-10_000, 0));
    assert_eq!(normalize(0, 0), (UNIT, 0));
    // root of 200000000 is 14142: 10000 * 10000 / 14142
    assert_eq!(normalize(10_000, -10_000), (7_071, -7_071));
}

#[test]
fn particles_drift_and_land() {
    let map = HexMap::new(6, 6);
    let particles = seed_particles(&map, 2);
    let count = particles.len();
    assert_eq!(count, 12 * 92);
    let still = vec![(0, 0); 36];
    let mut rng = rng(5);
    let same = drift_particles(&map, &still, particles.clone(), 3, &mut rng);
    for (before, after) in particles.iter().zip(&same) {
        // without pressure a particle stays, but for coming in at the other side
        assert_eq!(before.y, after.y);
        assert_eq!((after.x - before.x) % 12_000, 0);
    }
    assert_eq!(drift_particles(&map, &still, particles.clone(), 0, &mut rng), particles);
    let pushed = drift_particles(&map, &vec![(UNIT, 0); 36], particles.clone(), 1, &mut rng);
    assert_eq!(pushed.len(), count);
    for (before, after) in particles.iter().zip(&pushed) {
        assert_eq!(before.y, after.y);
        let moved = (after.x - before.x).rem_euclid(12_000);
        assert!(1_800 <= moved && moved < 2_200);
    }
    let hits = land_particles(&map, &particles);
    assert!(hits.len() < count && hits.len() > count / 4);
    assert!(hits.iter().all(|&hit| hit < 36));
    // every tile but the last of the odd rows has a particle at its centre or left of it
    assert!((0..36).all(|tile| hits.contains(&tile) || (tile / 6) % 2 == 1 && tile % 6 == 5));
}

#[test]
fn the_noise_is_read_where_the_first_readings_lead() {
    let asked = std::cell::RefCell::new(Vec::new());
    let constant = |x: i64, y: i64| {
        asked.borrow_mut().push((x, y));
        7
    };
    assert_eq!(warped(&constant, 2, 10, 20), (7, 7));
    assert_eq!(
        *asked.borrow(),
        vec![
            (2_000_010, 20),
            (10, -1_999_980),
            (710, -4_997_999_280),
            (-1_999_290, 720)
        ]
    );
    // values beyond one are kept to one
    assert_eq!(warped(&|_, _| -20_000, 0, 0, 0), (-10_000, -10_000));
}

#[test]
fn the_flow_follows_the_noise() {
    let map = HexMap::new(4, 3);
    let flow = flow_field(&map, 9, &|_, _| 3_000);
    assert_eq!(flow, vec![(7_071, 7_071); 12]);
    // the noise is read at a fifth of the width per unit: tile 1 lies at 3000 of 9000
    let asked = std::cell::RefCell::new(Vec::new());
    let flow = flow_field(&map, 0, &|x: i64, y: i64| {
        asked.borrow_mut().push((x, y));
        if x > 2_000_000 { 10_000 } else { -10_000 }
    });
    assert_eq!(asked.borrow()[0], (555_555, 641_519));
    assert_eq!(flow.len(), 12);
    for direction in &flow {
        let square = direction.0 as i64 * direction.0 as i64 + direction.1 as i64 * direction.1 as i64;
        assert!(99_960_000 <= square && square <= 100_030_000);
    }
    // at the left edge the noise one map width further on decides alone,
    // midway to the middle of the map the two cancel out,
    // right of the middle the noise at the tile decides alone
    assert_eq!(flow[0], (7_071, 7_071));
    assert_eq!(flow[1], (10_000, 0));
    assert_eq!(flow[3], (7_071, 7_071));
}

#[test]
fn a_map_is_generated_from_noise() {
    let mut map = HexMap::new(40, 30);
    let gen = Fbm::new();
    let mut geo = Geo::default();
    geo.num_plates = 10;
    geo.particle_grid_density = 3;
    assert_eq!(geo.generate_from_noise(&mut map, &|x, y| sample(&gen, x, y), 77), Ok(()));
    assert!(map.field.iter().any(|hex| hex.terrain_type == HexType::Ocean));
    assert!(map.field.iter().any(|hex| hex.terrain_type == HexType::Field));
    geo.num_plates = 0;
    assert_eq!(
        geo.generate_from_noise(&mut map, &|x, y| sample(&gen, x, y), 77),
        Err(GeoError::NoPlates)
    );
}

#[test]
fn a_lone_plate_always_succeeds() {
    for seed in 0..12u32 {
        let mut map = HexMap::new(9, 7);
        let flow: Vec<(i32, i32)> = (0..63)
            .map(|i| if (i + seed) % 3 == 0 { (UNIT, 0) } else { (0, -UNIT) })
            .collect();
        let mut geo = Geo::default();
        geo.num_plates = 1;
        geo.particle_grid_density = 2;
        assert!(geo.check(&map));
        assert_eq!(geo.generate(&mut map, &flow, seed), Ok(()));
        let gen = Fbm::new();
        let mut map = HexMap::new(9, 7);
        assert_eq!(geo.generate_from_noise(&mut map, &|x, y| sample(&gen, x, y), seed), Ok(()));
        assert!(map.field.iter().any(|hex| hex.terrain_type == HexType::Ocean));
    }
}
