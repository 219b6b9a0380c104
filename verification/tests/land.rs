use enigmap::geo::heights::{
    bin_counts, pressure_field, pressure_radius, spiral_indices, sum_around, synthesize_heights,
};
use enigmap::geo::land::{classify, generate_land, sort_keys, thresholds, Thresholds};
use enigmap::geo::tidy::rank_tiles;
use enigmap::geo::plates::{count_tiles, PlateMap};
use enigmap::geo::Geo;
use enigmap::{HexMap, HexType};

#[test]
fn thresholds_are_ranks_of_the_sorted_heights() {
    let heights: Vec<u32> = (0..100).rev().map(|h| h * 10).collect();
    let found = thresholds(&heights);
    assert_eq!(found, Thresholds { ocean: 500, land: 720, mountain: 970 });
    let found = thresholds(&vec![9, 3, 7, 1]);
    assert_eq!(found, Thresholds { ocean: 7, land: 7, mountain: 9 });
    let found = thresholds(&vec![5]);
    assert_eq!(found, Thresholds { ocean: 5, land: 5, mountain: 5 });
}

#[test]
fn thresholds_rise() {
    let heights: Vec<u32> = (0..977u32).map(|i| (i * 7919) % 1009).collect();
    let found = thresholds(&heights);
    assert!(found.ocean <= found.land && found.land <= found.mountain);
}

#[test]
fn terrain_follows_the_bands() {
    let levels = Thresholds { ocean: 10, land: 20, mountain: 30 };
    assert_eq!(classify(9, &levels), HexType::Ocean);
    assert_eq!(classify(10, &levels), HexType::Water);
    assert_eq!(classify(19, &levels), HexType::Water);
    assert_eq!(classify(20, &levels), HexType::Field);
    assert_eq!(classify(30, &levels), HexType::Field);
    assert_eq!(classify(31, &levels), HexType::Mountain);
}

#[test]
fn land_is_generated_from_heights() {
    let mut map = HexMap::new(10, 10);
    let heights: Vec<u32> = (0..100).collect();
    generate_land(&mut map, &heights);
    let count = |kind: HexType| map.field.iter().filter(|hex| hex.terrain_type == kind).count();
    assert_eq!(count(HexType::Ocean), 50);
    assert_eq!(count(HexType::Water), 22);
    assert_eq!(count(HexType::Field), 26);
    assert_eq!(count(HexType::Mountain), 2);
    assert_eq!(map.field[49].terrain_type, HexType::Ocean);
    assert_eq!(map.field[50].terrain_type, HexType::Water);
    assert_eq!(map.field[97].terrain_type, HexType::Field);
    assert_eq!(map.field[98].terrain_type, HexType::Mountain);
    assert_eq!((map.field[98].x, map.field[98].y), (4, 9));
}

#[test]
fn particles_are_counted_by_tile() {
    let (counts, most) = bin_counts(4, &vec![1, 3, 1, 1, 0]);
    assert_eq!(counts, vec![1, 3, 0, 1]);
    assert_eq!(most, 3);
    let (counts, most) = bin_counts(3, &vec![]);
    assert_eq!(counts, vec![0, 0, 0]);
    assert_eq!(most, 0);
}

#[test]
fn surroundings_leave_out_what_is_off_the_map() {
    let map = HexMap::new(5, 5);
    assert_eq!(spiral_indices(&map, 12, 0), vec![12]);
    assert_eq!(spiral_indices(&map, 12, 1), vec![12, 7, 13, 17, 16, 11, 6]);
    // top left corner: two places above the map are left out
    assert_eq!(spiral_indices(&map, 0, 1), vec![0, 1, 5, 9, 4]);
    let values: Vec<u32> = (0..25).collect();
    assert_eq!(sum_around(&map, &values, 12, 1), (82, 7));
    assert_eq!(sum_around(&map, &values, 0, 1), (19, 5));
    assert_eq!(sum_around(&map, &values, 7, 0), (7, 1));
}

#[test]
fn pressure_reaches_six_hundredths_of_the_mean_size() {
    assert_eq!(pressure_radius(&HexMap::new(100, 75)), 5);
    assert_eq!(pressure_radius(&HexMap::new(4, 4)), 0);
    assert_eq!(pressure_radius(&HexMap::new(50, 50)), 3);
}

#[test]
fn plates_with_tiles_are_ranked_in_order() {
    let labels = vec![Some(3), Some(1), Some(3), Some(1), Some(1)];
    let counts = count_tiles(&labels, 4);
    assert_eq!(counts, vec![0, 3, 0, 2]);
    let (tiles, survivors) = rank_tiles(&PlateMap { labels, counts });
    assert_eq!(tiles, vec![1, 0, 1, 0, 0]);
    assert_eq!(survivors, 2);
}

#[test]
fn settings_start_from_their_defaults() {
    let mut geo = Geo::default();
    assert_eq!(geo.num_plates, 30);
    assert_eq!(geo.particle_grid_density, 7);
    assert_eq!(geo.particle_iterations, 6);
    assert_eq!(geo.seed(), None);
    geo.set_seed(17);
    assert_eq!(geo.seed(), Some(17));
    assert_eq!(geo.num_plates, 30);
}

#[test]
fn pressure_is_the_mean_drift_round_a_tile() {
    let map = HexMap::new(17, 17);
    assert_eq!(pressure_radius(&map), 1);
    let mut ranks = vec![0usize; 289];
    ranks[150] = 1;
    let drifts = vec![(10_000, 0), (0, -10_000)];
    let field = pressure_field(&map, &ranks, &drifts);
    assert_eq!(field.len(), 289);
    assert_eq!(field[150], (8_571, -1_428));
    assert_eq!(field[151], (8_571, -1_428));
    assert_eq!(field[40], (10_000, 0));
    // on a small map the pressure on a tile is the drift of its own plate
    let small = HexMap::new(4, 4);
    let field = pressure_field(&small, &vec![1; 16], &drifts);
    assert_eq!(field, vec![(0, -10_000); 16]);
}

#[test]
fn heights_come_from_plates_and_particles() {
    let map = HexMap::new(5, 5);
    let ranks = vec![0usize; 25];
    let still = vec![0u32; 25];
    let heights = synthesize_heights(&map, &ranks, &vec![500_000], &still, &still, 0);
    assert_eq!(heights, vec![385_000; 25]);

    let mut counts = vec![0u32; 25];
    counts[12] = 7;
    let heights = synthesize_heights(&map, &ranks, &vec![500_000], &still, &counts, 7);
    assert_eq!(heights[12], 474_999);
    assert_eq!(heights[7], 474_999);
    assert_eq!(heights[0], 385_000);

    let mut ranks = vec![0usize; 25];
    ranks[12] = 1;
    let mut reaches = vec![0u32; 25];
    reaches[12] = 1;
    let heights = synthesize_heights(&map, &ranks, &vec![0, 1_000_000], &reaches, &still, 0);
    // (950000 + 6 * 450000) / 7 = 521428, times 0.55
    assert_eq!(heights[12], 286_785);
    assert_eq!(heights[11], 247_500);
}

#[test]
fn keys_are_sorted_and_none_is_lost() {
    assert_eq!(sort_keys(&vec![5, 1, 4, 1, 5, 9, 2, 6]), vec![1, 1, 2, 4, 5, 5, 6, 9]);
    assert_eq!(sort_keys(&vec![]), Vec::<u32>::new());
    assert_eq!(sort_keys(&vec![3]), vec![3]);
    let keys: Vec<u32> = (0..1000u32).map(|i| (i * 7919) % 1009).collect();
    let mut expected = keys.clone();
    expected.sort_unstable();
    assert_eq!(sort_keys(&keys), expected);
}
