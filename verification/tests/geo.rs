use enigmap::geo::cost::{edge_cost, MAX_COST, MIN_COST, UNIT};
use enigmap::geo::plates::{assign_plates, GeoError, PlateMap};
use enigmap::geo::spread::spread;
use enigmap::geo::tidy::{
    count_holes, dissolve, dissolve_islands, dissolve_small, fill_holes, fill_pass, is_enclosed,
    small, tidy_plates, winner_of,
};
use enigmap::geo::plates::count_tiles;
use enigmap::geo::route::neighbours_of;
use enigmap::HexMap;

fn still_flow(area: usize) -> Vec<(i32, i32)> {
    vec![(UNIT, 0); area]
}

#[test]
fn aligned_directions_cost_the_least() {
    assert_eq!(edge_cost((UNIT, 0), (UNIT, 0)), MIN_COST);
    assert_eq!(edge_cost((UNIT, 0), (-UNIT, 0)), MAX_COST);
    // dot 0: lesser of 4 * 0.85 and 1.5 * 1.4
    assert_eq!(edge_cost((UNIT, 0), (0, UNIT)), 21_000);
    // dot 0.8: lesser of 4 * 0.05 and 1.5 * 0.6
    assert_eq!(edge_cost((UNIT, 0), (8_000, 6_000)), 2_000);
}

#[test]
fn costs_spread_step_by_step() {
    let map = HexMap::new(5, 1);
    let costs = spread(&map, &still_flow(5), 0);
    assert_eq!(costs, vec![0, 1, 2, 2, 1]);
}

#[test]
fn no_plates_is_refused() {
    let map = HexMap::new(4, 4);
    let found = assign_plates(&map, &still_flow(16), &vec![]);
    assert!(matches!(found, Err(GeoError::NoPlates)));
}

#[test]
fn seed_off_the_map_is_refused() {
    let map = HexMap::new(4, 4);
    let found = assign_plates(&map, &still_flow(16), &vec![3, 16]);
    assert!(matches!(found, Err(GeoError::SeedOffMap)));
    let found = assign_plates(&map, &still_flow(15), &vec![3]);
    assert!(matches!(found, Err(GeoError::FlowMismatch)));
}

#[test]
fn tiles_go_to_the_nearest_seed() {
    let map = HexMap::new(6, 1);
    let found = assign_plates(&map, &still_flow(6), &vec![0, 3]).unwrap();
    assert_eq!(
        found.labels,
        vec![Some(0), Some(0), Some(1), Some(1), Some(1), Some(0)]
    );
    assert_eq!(found.counts, vec![3, 3]);
}

#[test]
fn filling_stalls_on_a_single_row() {
    let map = HexMap::new(4, 1);
    let plates = PlateMap { labels: vec![Some(0), Some(0), None, None], counts: vec![2] };
    assert!(matches!(fill_holes(&map, plates), Err(GeoError::Stalled)));
    let plates = PlateMap { labels: vec![None, None, None, None], counts: vec![0] };
    assert!(matches!(fill_holes(&map, plates), Err(GeoError::NoSurvivor)));
}

#[test]
fn a_hole_goes_to_the_plate_with_most_neighbours() {
    let map = HexMap::new(4, 4);
    let mut labels = vec![Some(0usize); 16];
    for b in 8..16 {
        labels[b] = Some(1);
    }
    labels[5] = None;
    let plates = PlateMap { labels, counts: vec![7, 8] };
    let full = fill_holes(&map, plates).unwrap();
    assert_eq!(full.labels[5], Some(0));
    assert_eq!(full.counts, vec![8, 8]);
}

#[test]
fn tidying_leaves_no_tile_without_a_plate() {
    let map = HexMap::new(20, 20);
    let seeds = vec![0, 45, 210, 399, 130];
    let plates = assign_plates(&map, &still_flow(400), &seeds).unwrap();
    let full = tidy_plates(&map, &seeds, plates).unwrap();
    assert!(full.labels.iter().all(|l| l.is_some()));
    assert!(full.counts.iter().any(|&c| c > 0));
    assert_eq!(full.counts.iter().sum::<usize>(), 400);
}

#[test]
fn neighbours_are_named_by_index() {
    let map = HexMap::new(5, 5);
    assert_eq!(neighbours_of(&map, 12), vec![17, 16, 11, 6, 7, 13]);
    assert_eq!(neighbours_of(&map, 0), vec![5, 9, 4, 1]);
    assert_eq!(neighbours_of(&map, 24), vec![23, 18, 19, 20]);
}

#[test]
fn plates_below_half_a_percent_are_dissolved() {
    assert!(small(1, 400));
    assert!(!small(2, 400));
    assert!(small(37, 7500));
    assert!(!small(38, 7500));
    let mut labels = vec![Some(0usize); 400];
    labels[7] = Some(1);
    labels[8] = Some(2);
    labels[9] = Some(2);
    let counts = count_tiles(&labels, 3);
    assert_eq!(counts, vec![397, 1, 2]);
    let mut plates = PlateMap { labels, counts };
    dissolve_small(&mut plates);
    assert_eq!(plates.counts, vec![397, 0, 2]);
    assert_eq!(plates.labels[7], None);
    assert_eq!(plates.labels[8], Some(2));
    assert_eq!(count_holes(&plates.labels), 1);
    dissolve(&mut plates, 2);
    assert_eq!(plates.counts, vec![397, 0, 0]);
    assert_eq!(count_holes(&plates.labels), 3);
}

#[test]
fn a_plate_inside_another_is_an_island() {
    let map = HexMap::new(6, 6);
    // plate 0 above, plate 1 below, plate 2 one tile inside plate 0
    let mut labels: Vec<Option<usize>> = (0..36).map(|b| Some(if b < 18 { 0 } else { 1 })).collect();
    labels[8] = Some(2);
    assert!(is_enclosed(&map, &labels, 8, 2));
    assert!(!is_enclosed(&map, &labels, 0, 0));
    assert!(is_enclosed(&map, &labels, 30, 1));
    let counts = count_tiles(&labels, 3);
    let mut plates = PlateMap { labels, counts };
    let seeds = vec![0, 30, 8];
    dissolve_islands(&map, &seeds, &mut plates);
    // plate 0 touches two plates and stays, plate 1 touches plate 0 only and goes,
    // then plate 2 goes
    assert_eq!(plates.counts, vec![17, 0, 0]);
    assert_eq!(count_holes(&plates.labels), 19);
    let full = fill_holes(&map, plates).unwrap();
    assert!(full.labels.iter().all(|&label| label == Some(0)));
    assert_eq!(full.counts, vec![36, 0, 0]);
}

#[test]
fn a_hole_needs_two_neighbours_of_one_plate() {
    let map = HexMap::new(5, 5);
    let mut labels: Vec<Option<usize>> = vec![None; 25];
    // neighbours of tile 12 are 17, 16, 11, 6, 7, 13
    labels[17] = Some(3);
    assert_eq!(winner_of(&map, &labels, 12), None);
    labels[6] = Some(1);
    assert_eq!(winner_of(&map, &labels, 12), None);
    labels[16] = Some(3);
    assert_eq!(winner_of(&map, &labels, 12), Some(3));
    labels[7] = Some(1);
    // two each: the earlier plate takes the tile
    assert_eq!(winner_of(&map, &labels, 12), Some(1));
    labels[11] = Some(3);
    assert_eq!(winner_of(&map, &labels, 12), Some(3));
    let (next, filled) = fill_pass(&map, &labels);
    assert_eq!(next[12], Some(3));
    assert_eq!(next[17], Some(3));
    assert_eq!(filled + count_holes(&next), 20);
    assert!(filled >= 1);
}
