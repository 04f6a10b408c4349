//! The aggregate by which the artificial contender judges and fingerprints a position.
use vstd::prelude::*;
use vstd::bytes::{spec_u64_to_le_bytes, u64_to_le_bytes};
use vstd::std_specs::hash::DefaultHasherAdditionalSpecFns;
use std::collections::hash_map::DefaultHasher;
use std::hash::Hasher;
use crate::ai::measure::{Measure, MeasureView, measures_view};
use crate::arith::lemma_sum_fits;
use crate::model::Consts;

verus! {

/// Totals over all measures, seen from one contender.
#[derive(Clone, Copy, Debug, Hash, PartialEq, Eq, Structural)]
pub struct Metrics {
    /// What the enemy planets within reach offer, per distance.
    pub enemy_extracted: i64,
    /// Whole units of spendable resources on allied planets.
    pub allied_extracted: i64,
    /// Allied ships on all planets.
    pub ships_count: i64,
    /// Allied ships in percent of all ships.
    pub ships_count_ratio: i64,
    /// Allied planets in percent of all planets.
    pub planets_ratio: i64,
}

/// A number as an `i64`, capped at the largest.
pub open spec fn capped_i64(x: int) -> i64 {
    if x > i64::MAX {
        i64::MAX
    } else if x < 0 {
        0
    } else {
        x as i64
    }
}

/// Whether the measured planet belongs to the contender `player_id`.
pub open spec fn is_allied(measure: MeasureView, player_id: usize) -> bool {
    measure.planet_props.contender_id == player_id
}

/// What a planet offers to who takes it, per distance: its resources, banked
/// and spendable, divided by the cost to reach it. Nothing while the planet is
/// out of reach; capped at the largest `i64`, which also stands for a planet
/// with resources at no distance.
pub open spec fn pressure(measure: MeasureView) -> int {
    let amount = measure.planet_props.extracted + measure.planet_props.resources;
    match measure.distance {
        None => 0,
        Some(d) => if d == 0 {
            if amount == 0 {
                0
            } else {
                i64::MAX as int
            }
        } else {
            capped_i64(amount / (d as int)) as int
        },
    }
}

/// Whole units of spendable resources on the allied planets among the first `n`.
pub open spec fn allied_extracted_upto(measures: Seq<MeasureView>, player_id: usize, n: nat) -> int
    decreases n,
{
    if n == 0 {
        0
    } else {
        allied_extracted_upto(measures, player_id, (n - 1) as nat) + if is_allied(
            measures[n - 1],
            player_id,
        ) {
            measures[n - 1].extracted / Consts::RESOURCE_UNIT
        } else {
            0
        }
    }
}

/// The pressure of the planets among the first `n` that are not allied.
pub open spec fn enemy_pressure_upto(measures: Seq<MeasureView>, player_id: usize, n: nat) -> int
    decreases n,
{
    if n == 0 {
        0
    } else {
        enemy_pressure_upto(measures, player_id, (n - 1) as nat) + if is_allied(
            measures[n - 1],
            player_id,
        ) {
            0
        } else {
            pressure(measures[n - 1])
        }
    }
}

/// The allied ship counts of the first `n` measures together.
pub open spec fn allied_ships_upto(measures: Seq<MeasureView>, n: nat) -> int
    decreases n,
{
    if n == 0 {
        0
    } else {
        allied_ships_upto(measures, (n - 1) as nat) + measures[n - 1].allied_ships_count
    }
}

/// The ship counts of the first `n` measures together.
pub open spec fn ships_upto(measures: Seq<MeasureView>, n: nat) -> int
    decreases n,
{
    if n == 0 {
        0
    } else {
        ships_upto(measures, (n - 1) as nat) + measures[n - 1].ships_count
    }
}

/// Number of allied planets among the first `n`.
pub open spec fn allied_planets_upto(measures: Seq<MeasureView>, player_id: usize, n: nat) -> int
    decreases n,
{
    if n == 0 {
        0
    } else {
        allied_planets_upto(measures, player_id, (n - 1) as nat) + if is_allied(
            measures[n - 1],
            player_id,
        ) {
            1int
        } else {
            0
        }
    }
}

/// `part` in percent of `whole`, rounded down; zero of nothing.
pub open spec fn percent_of(part: int, whole: int) -> int {
    if whole == 0 {
        0
    } else {
        100 * part / whole
    }
}

/// The metrics that the measures give to the contender `player_id`.
pub open spec fn metrics_of(measures: Seq<MeasureView>, player_id: usize) -> Metrics {
    let n = measures.len();
    let allied_ships = capped_i64(allied_ships_upto(measures, n));
    let ships = capped_i64(ships_upto(measures, n));
    Metrics {
        enemy_extracted: capped_i64(enemy_pressure_upto(measures, player_id, n)),
        allied_extracted: capped_i64(allied_extracted_upto(measures, player_id, n)),
        ships_count: allied_ships,
        ships_count_ratio: capped_i64(percent_of(allied_ships as int, ships as int)),
        planets_ratio: capped_i64(percent_of(allied_planets_upto(measures, player_id, n), n as int)),
    }
}

/// The metrics of a contender that knows of no planet: all zero.
pub open spec fn no_metrics() -> Metrics {
    Metrics {
        enemy_extracted: 0,
        allied_extracted: 0,
        ships_count: 0,
        ships_count_ratio: 0,
        planets_ratio: 0,
    }
}

/// The byte strings that a fingerprint is taken of: the five fields in
/// order, each as eight bytes, lowest first.
pub open spec fn digest_input(metrics: Metrics) -> Seq<Seq<u8>> {
    seq![
        spec_u64_to_le_bytes(metrics.enemy_extracted as u64),
        spec_u64_to_le_bytes(metrics.allied_extracted as u64),
        spec_u64_to_le_bytes(metrics.ships_count as u64),
        spec_u64_to_le_bytes(metrics.ships_count_ratio as u64),
        spec_u64_to_le_bytes(metrics.planets_ratio as u64),
    ]
}

/// The fingerprint of the metrics.
pub open spec fn digest_of(metrics: Metrics) -> u64 {
    DefaultHasher::spec_finish(digest_input(metrics))
}

fn cap_i64(x: u128) -> (capped: i64)
    ensures
        capped == capped_i64(x as int),
{
    if x > i64::MAX as u128 {
        i64::MAX
    } else {
        x as i64
    }
}

fn pressure_of(measure: &Measure) -> (offered: u128)
    ensures
        offered == pressure(measure@),
        offered <= i64::MAX,
{
    let amount: u128 = measure.planet_props.extracted as u128 + measure.planet_props.resources as u128;
    match measure.distance {
        None => 0,
        Some(d) => {
            if d == 0 {
                if amount == 0 {
                    0
                } else {
                    i64::MAX as u128
                }
            } else {
                let ratio: u128 = amount / (d as u128);
                if ratio > i64::MAX as u128 {
                    i64::MAX as u128
                } else {
                    ratio
                }
            }
        },
    }
}

impl Metrics {
    /// The metrics of a contender that knows of no planet.
    pub fn empty() -> (metrics: Metrics)
        ensures
            metrics == no_metrics(),
    {
        Metrics {
            enemy_extracted: 0,
            allied_extracted: 0,
            ships_count: 0,
            ships_count_ratio: 0,
            planets_ratio: 0,
        }
    }

    /// Derives the metrics from the measures, seen from the contender `player_id`.
    pub fn measure(measures: &Vec<Measure>, player_id: usize) -> (metrics: Metrics)
        ensures
            metrics == metrics_of(measures_view(measures@), player_id),
    {
        let ghost views = measures_view(measures@);
        let mut allied_extracted: u128 = 0;
        let mut enemy_extracted: u128 = 0;
        let mut allied_ships: u128 = 0;
        let mut ships: u128 = 0;
        let mut allied_planets: usize = 0;
        let mut i: usize = 0;
        while i < measures.len()
            invariant
                i <= measures.len(),
                views == measures_view(measures@),
                allied_extracted == allied_extracted_upto(views, player_id, i as nat),
                enemy_extracted == enemy_pressure_upto(views, player_id, i as nat),
                allied_ships == allied_ships_upto(views, i as nat),
                ships == ships_upto(views, i as nat),
                allied_planets == allied_planets_upto(views, player_id, i as nat),
                allied_extracted <= i * u64::MAX,
                enemy_extracted <= i * u64::MAX,
                allied_ships <= i * u64::MAX,
                ships <= i * u64::MAX,
                allied_planets <= i,
            decreases measures.len() - i,
        {
            proof {
                lemma_sum_fits(i as int, u64::MAX as int);
            }
            let measure = &measures[i];
            assert(measure@ == views[i as int]);
            if measure.planet_props.contender_id == player_id {
                allied_extracted = allied_extracted + (measure.extracted
                    / Consts::RESOURCE_UNIT) as u128;
                allied_planets = allied_planets + 1;
            } else {
                enemy_extracted = enemy_extracted + pressure_of(measure);
            }
            allied_ships = allied_ships + measure.allied_ships_count as u128;
            ships = ships + measure.ships_count as u128;
            i += 1;
        }
        let allied_ships_capped = cap_i64(allied_ships);
        let ships_capped = cap_i64(ships);
        let ships_ratio: u128 = if ships_capped == 0 {
            0
        } else {
            100 * (allied_ships_capped as u128) / (ships_capped as u128)
        };
        let planets_ratio: u128 = if measures.len() == 0 {
            0
        } else {
            100 * (allied_planets as u128) / (measures.len() as u128)
        };
        Metrics {
            enemy_extracted: cap_i64(enemy_extracted),
            allied_extracted: cap_i64(allied_extracted),
            ships_count: allied_ships_capped,
            ships_count_ratio: cap_i64(ships_ratio),
            planets_ratio: cap_i64(planets_ratio),
        }
    }

    /// The fingerprint of the metrics: what the standard hasher in its
    /// initial state makes of the five fields.
    pub fn digest(&self) -> (fingerprint: u64)
        ensures
            fingerprint == digest_of(*self),
    {
        let mut hasher = DefaultHasher::new();
        hasher.write(u64_to_le_bytes(#[verifier::truncate] (self.enemy_extracted as u64)).as_slice());
        hasher.write(u64_to_le_bytes(#[verifier::truncate] (self.allied_extracted as u64)).as_slice());
        hasher.write(u64_to_le_bytes(#[verifier::truncate] (self.ships_count as u64)).as_slice());
        hasher.write(u64_to_le_bytes(#[verifier::truncate] (self.ships_count_ratio as u64)).as_slice());
        hasher.write(u64_to_le_bytes(#[verifier::truncate] (self.planets_ratio as u64)).as_slice());
        assert(hasher@ =~= digest_input(*self));
        hasher.finish()
    }
}

} // verus!
