//! Terrain from drifting plates.
//!
//! Plates are seeded on the map and spread along a flow field read from
//! noise (`flow`, `cost`, `route`, `spread`, `plates`); plates too small or
//! enclosed are dissolved and their tiles handed to the plates around them
//! (`tidy`); the plates drift, particles drift under their pressure and
//! raise the land where they gather (`plane`, `particles`, `heights`); and
//! the heights are cut into ocean, water, field and mountain (`land`). What
//! is left to chance is drawn in `chance`, and `run` says what a whole run
//! of the generator is.
//!
//! All quantities are whole numbers. Directions are vectors in fixed point,
//! costs are counted in ten-thousandths, heights in millionths, and points
//! of the plane lie on a fine grid on which the geometry of the tiles is
//! exact.

pub mod chance;
pub mod cost;
pub mod flow;
pub mod heights;
pub mod land;
pub mod particles;
pub mod plane;
pub mod plates;
pub mod route;
pub mod run;
pub mod spread;
pub mod tidy;

use vstd::prelude::*;
use crate::generators::seed_to_rng_seed;
use crate::geo::chance::{
    draw_drifts,
    draw_plate_heights,
    draw_reaches,
    draw_seeds,
    drift_particles,
    drifts_to,
    is_seed,
    land_particles,
    landed,
    rng_from_seed,
};
use crate::geo::flow::{flow_field, is_flow_field};
use crate::geo::heights::{
    bin_counts,
    pressure_field,
    pressure_radius,
    spec_pressure_radius,
    synthesize_heights,
};
use crate::geo::land::generate_land;
use crate::geo::particles::{particle_rows, seed_particles, start_of, PADDING};
use crate::geo::plates::{assign_plates, is_nearest_plate, GeoError};
use crate::geo::run::{
    counts_hits,
    is_division,
    is_run,
    leaves_none,
    left,
    lemma_lone_plate,
    shows,
    stalls,
    Division,
    Run,
};
use crate::geo::tidy::{after_passes, fills_in, rank_tiles, tidy_plates};
use crate::hex::spiral_len;
use crate::hexmap::HexMap;

verus! {

/// Settings of the generator that forms terrain from drifting plates.
#[derive(Debug, Clone, Copy)]
pub struct Geo {
    /// The seed, where one is fixed.
    pub seed: u32,
    /// Whether a seed is fixed.
    pub using_seed: bool,
    /// Number of plates to seed.
    pub num_plates: u32,
    /// Number of steps that each particle drifts.
    pub particle_iterations: u32,
    /// Number of particles along one unit of length.
    pub particle_grid_density: u32,
}

impl Geo {
    /// The seed that was fixed, if one was.
    pub open spec fn fixed_seed(&self) -> Option<u32> {
        if self.using_seed {
            Some(self.seed)
        } else {
            None
        }
    }

    /// The seed that was fixed, if one was.
    pub fn seed(&self) -> (seed: Option<u32>)
        ensures
            seed == self.fixed_seed(),
    {
        if self.using_seed {
            Some(self.seed)
        } else {
            None
        }
    }

    /// Whether the settings suit the map: there are particles, no more of
    /// them than can be counted, and no more tiles within the pressure
    /// radius of a tile than can be counted.
    pub open spec fn fits(&self, map: &HexMap) -> bool {
        &&& self.particle_grid_density >= 1
        &&& map.size_x * self.particle_grid_density * particle_rows(
            map.size_y as int,
            self.particle_grid_density as int,
        ) <= u32::MAX
        &&& spiral_len(spec_pressure_radius(map)) <= u32::MAX
    }

    /// Whether the settings suit the map.
    pub fn check(&self, map: &HexMap) -> (fit: bool)
        requires
            map.sized(),
        ensures
            fit == self.fits(map),
    {
        let grid = self.particle_grid_density as u128;
        if grid == 0 {
            return false;
        }
        proof {
            crate::geo::plane::lemma_sizes(map);
        }
        assert(map.size_x * grid <= 0x1000_0000 * 0x1_0000_0000 && map.size_y * grid
            <= 0x1000_0000 * 0x1_0000_0000) by (nonlinear_arith)
            requires
                0 <= map.size_x <= 0x1000_0000,
                0 <= map.size_y <= 0x1000_0000,
                0 <= grid < 0x1_0000_0000,
        ;
        let columns: u128 = map.size_x as u128 * grid;
        let rows: u128 = map.size_y as u128 * grid + 80;
        assert(columns * rows <= 0x1000_0000_0000_0000 * 0x2000_0000_0000_0000)
            by (nonlinear_arith)
            requires
                0 <= columns <= 0x1000_0000_0000_0000,
                0 <= rows <= 0x2000_0000_0000_0000,
        ;
        let count: u128 = columns * rows;
        let radius = pressure_radius(map) as u128;
        let next: u128 = radius + 1;
        assert(radius * next <= 0x0400_0000 * 0x0400_0001) by (nonlinear_arith)
            requires
                0 <= radius <= 0x0400_0000,
                next == radius + 1,
        ;
        let around: u128 = 1 + 3 * (radius * next);
        assert(around == spiral_len(radius as int)) by (nonlinear_arith)
            requires
                around == 1 + 3 * (radius * next),
                next == radius + 1,
                spiral_len(radius as int) == 1 + 3 * radius * (radius + 1),
        ;
        assert(count == map.size_x * self.particle_grid_density * particle_rows(
            map.size_y as int,
            self.particle_grid_density as int,
        )) by (nonlinear_arith)
            requires
                count == columns * rows,
                columns == map.size_x * grid,
                rows == map.size_y * grid + 80,
                grid == self.particle_grid_density,
                particle_rows(map.size_y as int, self.particle_grid_density as int) == map.size_y
                    * self.particle_grid_density + 2 * PADDING,
                PADDING == 40,
        ;
        count <= u32::MAX as u128 && around <= u32::MAX as u128
    }

    /// What a call of `generate` on the map `before` across `flow` may
    /// come to, with `after` the map that it leaves and `done` its result.
    ///
    /// - No plates, a flow field that does not fit the map, and settings
    ///   out of range are refused, each for its own reason and in this
    ///   order, and leave the map as it was.
    /// - `NoSurvivor` and `Stalled` come only where the seeds that were
    ///   drawn divide the map so that tidying leaves no plate, or cannot
    ///   fill the holes. The map stays as it was.
    /// - On success there is a run of the generator whose heights the map
    ///   shows.
    /// - With a single plate the generator succeeds whatever is drawn.
    pub open spec fn outcome(
        &self,
        before: HexMap,
        flow: Seq<(i32, i32)>,
        after: HexMap,
        done: Result<(), GeoError>,
    ) -> bool {
        let ready = self.num_plates > 0 && flow.len() == before.area() && self.fits(&before);
        &&& match done {
            Ok(_) => ready && exists|run: Run| #[trigger]
                is_run(
                    &before,
                    flow,
                    self.num_plates,
                    self.particle_grid_density,
                    self.particle_iterations,
                    run,
                ) && shows(before, after, run.heights),
            Err(GeoError::NoPlates) => self.num_plates == 0 && after == before,
            Err(GeoError::FlowMismatch) => {
                &&& self.num_plates > 0
                &&& flow.len() != before.area()
                &&& after == before
            },
            Err(GeoError::OutOfRange) => {
                &&& self.num_plates > 0
                &&& flow.len() == before.area()
                &&& !self.fits(&before)
                &&& after == before
            },
            Err(GeoError::NoSurvivor) => ready && after == before && exists|division: Division| #[trigger]
                is_division(&before, flow, self.num_plates as int, division) && leaves_none(
                    &before,
                    division,
                ),
            Err(GeoError::Stalled) => ready && after == before && exists|division: Division| #[trigger]
                is_division(&before, flow, self.num_plates as int, division) && stalls(
                    &before,
                    division,
                ),
            Err(GeoError::SeedOffMap) => false,
        }
        &&& self.num_plates == 1 && flow.len() == before.area() && self.fits(&before)
            ==> done.is_ok()
    }

    /// Gives every tile of the map its terrain. Plates are seeded at
    /// random and spread along the flow field `flow`, the division is
    /// tidied, the plates are set adrift, particles drift under their
    /// pressure, and the heights that this gives are cut into ocean, water,
    /// field and mountain. All numbers left to chance are drawn from
    /// generators made from `seed`.
    ///
    /// The map is changed only where the result is `Ok`.
    pub fn generate(&self, map: &mut HexMap, flow: &Vec<(i32, i32)>, seed: u32) -> (done: Result<
        (),
        GeoError,
    >)
        requires
            old(map).wf(),
        ensures
            final(map).wf(),
            final(map).size_x == old(map).size_x,
            final(map).size_y == old(map).size_y,
            self.outcome(*old(map), flow@, *final(map), done),
    {
        if self.num_plates == 0 {
            return Err(GeoError::NoPlates);
        }
        if flow.len() != map.field.len() {
            return Err(GeoError::FlowMismatch);
        }
        if !self.check(map) {
            return Err(GeoError::OutOfRange);
        }
        let ghost before = *map;
        let area = map.field.len();
        let mut rng = rng_from_seed(seed_to_rng_seed(seed));
        let seeds = draw_seeds(map, self.num_plates, &mut rng);
        let plates = match assign_plates(map, flow, &seeds) {
            Ok(plates) => plates,
            Err(error) => {
                proof {
                    if error == GeoError::SeedOffMap {
                        let p = choose|p: int| 0 <= p < seeds.len() && #[trigger] seeds[p] >= map.area();
                        assert(is_seed(map, seeds[p]));
                    }
                }
                return Err(error);
            },
        };
        let ghost division = Division {
            seeds: seeds@,
            labels: plates.labels@,
            counts: plates.counts@,
        };
        proof {
            assert forall|b: int| 0 <= b < map.area() implies (
            #[trigger] division.labels[b]).is_some() && is_nearest_plate(
                map,
                flow@,
                division.seeds,
                b,
                division.labels[b].unwrap() as int,
            ) by {
                assert(plates.labels[b].is_some());
            }
            assert(is_division(&before, flow@, self.num_plates as int, division));
            if self.num_plates == 1 {
                lemma_lone_plate(&before, flow@, division);
            }
        }
        let plates = match tidy_plates(map, &seeds, plates) {
            Ok(plates) => plates,
            Err(error) => {
                proof {
                    if error == GeoError::NoSurvivor {
                        assert(leaves_none(&before, division));
                    } else {
                        assert(stalls(&before, division));
                    }
                }
                return Err(error);
            },
        };
        let ghost passes = choose|k: nat|
            plates.labels@ == #[trigger] after_passes(&before, left(&before, division), k)
                && fills_in(&before, left(&before, division), k);
        let (ranks, survivors) = rank_tiles(&plates);
        let drifts = draw_drifts(survivors, &mut rng);
        let pressures = pressure_field(map, &ranks, &drifts);
        let particles = seed_particles(map, self.particle_grid_density);
        let ghost starts = particles@;
        let mut rng = rng_from_seed(seed_to_rng_seed(seed));
        let particles = drift_particles(map, &pressures, particles, self.particle_iterations, &mut rng);
        let hits = land_particles(map, &particles);
        let (counts, most) = bin_counts(area, &hits);
        let plate_heights = draw_plate_heights(survivors, &mut rng);
        let radius = pressure_radius(map);
        let reaches = draw_reaches(area, radius, &mut rng);
        proof {
            assert forall|t: int| 0 <= t < reaches.len() implies #[trigger] reaches[t]
                <= crate::geo::heights::MAX_RADIUS && spiral_len(reaches[t] as int) <= u32::MAX by {
                let reach = reaches[t] as int;
                assert(spiral_len(reach) <= spiral_len(radius as int)) by (nonlinear_arith)
                    requires
                        0 <= reach <= radius,
                        spiral_len(reach) == 1 + 3 * reach * (reach + 1),
                        spiral_len(radius as int) == 1 + 3 * radius * (radius + 1),
                ;
            }
        }
        let heights = synthesize_heights(map, &ranks, &plate_heights, &reaches, &counts, most);
        let ghost run = Run {
            division,
            passes,
            tidied: plates.labels@,
            sizes: plates.counts@,
            ranks: ranks@,
            drifts: drifts@,
            pressures: pressures@,
            drifted: particles@,
            gathered: counts@,
            most,
            plate_heights: plate_heights@,
            reaches: reaches@,
            heights: heights@,
        };
        proof {
            assert forall|k: int| 0 <= k < run.drifted.len() implies drifts_to(
                &before,
                run.pressures,
                start_of(k, before.size_y as int, self.particle_grid_density as int),
                self.particle_iterations as nat,
                #[trigger] run.drifted[k],
            ) by {
                assert(starts[k] == start_of(
                    k,
                    before.size_y as int,
                    self.particle_grid_density as int,
                ));
            }
            assert(counts_hits(landed(&before, run.drifted), before.area(), run.gathered, run.most));
            assert(is_run(
                &before,
                flow@,
                self.num_plates,
                self.particle_grid_density,
                self.particle_iterations,
                run,
            ));
        }
        generate_land(map, &heights);
        proof {
            assert forall|i: int| 0 <= i < map.field.len() implies (
                #[trigger] map.field[i].x as int,
                map.field[i].y as int,
            ) == crate::hexmap::index_coords(i, map.size_x as int) by {
                assert(map.field[i].x == old(map).field[i].x);
            }
            assert(shows(before, *map, run.heights));
        }
        Ok(())
    }

    /// Gives every tile of the map its terrain, with the flow field read
    /// from the noise `sample` under `seed`: the result is what `generate`
    /// comes to across a flow field that the noise gives.
    ///
    /// The map is changed only where the result is `Ok`.
    pub fn generate_from_noise<F: Fn(i64, i64) -> i32>(
        &self,
        map: &mut HexMap,
        sample: &F,
        seed: u32,
    ) -> (done: Result<(), GeoError>)
        requires
            old(map).wf(),
            forall|a: i64, b: i64| call_requires(*sample, (a, b)),
        ensures
            final(map).wf(),
            final(map).size_x == old(map).size_x,
            final(map).size_y == old(map).size_y,
            self.num_plates == 0 ==> done == Err::<(), GeoError>(GeoError::NoPlates) && *final(map)
                == *old(map),
            self.num_plates > 0 ==> exists|flow: Seq<(i32, i32)>|
                is_flow_field(old(map), seed, sample, flow) && #[trigger] self.outcome(
                    *old(map),
                    flow,
                    *final(map),
                    done,
                ),
            self.num_plates > 0 && !self.fits(old(map)) ==> done == Err::<(), GeoError>(
                GeoError::OutOfRange,
            ),
            self.num_plates == 1 && self.fits(old(map)) ==> done.is_ok(),
    {
        if self.num_plates == 0 {
            return Err(GeoError::NoPlates);
        }
        let flow = flow_field(map, seed, sample);
        let ghost before = *map;
        let done = self.generate(map, &flow, seed);
        proof {
            assert(is_flow_field(&before, seed, sample, flow@));
            assert(self.outcome(before, flow@, *map, done));
        }
        done
    }

    /// Fixes the seed from which the generator draws its numbers.
    pub fn set_seed(&mut self, seed: u32)
        ensures
            final(self).fixed_seed() == Some(seed),
            final(self).num_plates == old(self).num_plates,
            final(self).particle_iterations == old(self).particle_iterations,
            final(self).particle_grid_density == old(self).particle_grid_density,
    {
        self.using_seed = true;
        self.seed = seed;
    }
}

impl Default for Geo {
    fn default() -> (geo: Geo)
        ensures
            geo.fixed_seed().is_none(),
            geo.num_plates == 30,
            geo.particle_grid_density == 7,
            geo.particle_iterations == 6,
    {
        Geo {
            seed: 0,
            using_seed: false,
            num_plates: 30,
            particle_grid_density: 7,
            particle_iterations: 6,
        }
    }
}

} // verus!
