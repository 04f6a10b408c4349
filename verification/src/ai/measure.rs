//! What the artificial contender knows of one planet.
use vstd::prelude::*;
use crate::arith::lemma_sum_fits;
use crate::model::{
    CelestialProperties, Consts, ContenderProperties, ContenderVessels, Fleet, VesselProperties,
    fleets_of, total_vessels, vessels_of, vessels_of_upto, };

verus! {

/// Snapshot of one planet, rebuilt at every refresh and changed only by
/// simulated moves.
#[derive(Clone, Debug)]
pub struct Measure {
    pub planet_props: CelestialProperties,
    pub ships_by_player: Vec<ContenderVessels>,
    /// Spendable resources as the simulation sees them.
    pub extracted: u64,
    pub ships_count: usize,
    pub allied_ships_count: usize,
    /// Distance to every planet, by planet id.
    pub distances: Vec<u64>,
    /// Cost to reach the planet from where the last move started; `None`
    /// while no move has touched the planet.
    pub distance: Option<u64>,
}

/// Mathematical counterpart of `Measure`.
pub struct MeasureView {
    pub planet_props: CelestialProperties,
    pub fleets: Seq<Fleet>,
    pub extracted: u64,
    pub ships_count: usize,
    pub allied_ships_count: usize,
    pub distances: Seq<u64>,
    pub distance: Option<u64>,
}

impl View for Measure {
    type V = MeasureView;

    open spec fn view(&self) -> MeasureView {
        MeasureView {
            planet_props: self.planet_props,
            fleets: fleets_of(self.ships_by_player@),
            extracted: self.extracted,
            ships_count: self.ships_count,
            allied_ships_count: self.allied_ships_count,
            distances: self.distances@,
            distance: self.distance,
        }
    }
}

/// The measures as a sequence of their views.
pub open spec fn measures_view(measures: Seq<Measure>) -> Seq<MeasureView> {
    Seq::new(measures.len(), |i: int| measures[i]@)
}

/// A count as a machine word, capped at the largest.
pub open spec fn capped(count: int) -> usize {
    if count > usize::MAX {
        usize::MAX
    } else if count < 0 {
        0
    } else {
        count as usize
    }
}

impl MeasureView {
    /// The ship counts say what the fleets hold, seen from contender `player_id`.
    pub open spec fn counts_agree(self, player_id: usize) -> bool {
        &&& self.ships_count == capped(total_vessels(self.fleets) as int)
        &&& self.allied_ships_count == capped(vessels_of(self.fleets, player_id) as int)
    }

    /// The same planet with other fleets around it, the counts brought in line.
    pub open spec fn with_fleets(self, fleets: Seq<Fleet>, player_id: usize) -> MeasureView {
        MeasureView {
            fleets,
            ships_count: capped(total_vessels(fleets) as int),
            allied_ships_count: capped(vessels_of(fleets, player_id) as int),
            ..self
        }
    }
}

/// `i` is the first place at which `ids` holds `id`.
pub open spec fn is_first_position(ids: Seq<usize>, id: usize, i: int) -> bool {
    &&& 0 <= i < ids.len()
    &&& ids[i] == id
    &&& forall|j: int| 0 <= j < i ==> ids[j] != id
}

/// The first place at which `ids` holds `id`, if any.
pub open spec fn first_position(ids: Seq<usize>, id: usize) -> Option<int> {
    if exists|i: int| is_first_position(ids, id, i) {
        Some(choose|i: int| is_first_position(ids, id, i))
    } else {
        None
    }
}

/// There is only one first place.
pub proof fn lemma_first_position(ids: Seq<usize>, id: usize, i: int)
    ensures
        is_first_position(ids, id, i) ==> first_position(ids, id) == Some(i),
        (forall|j: int| 0 <= j < ids.len() ==> ids[j] != id) ==> first_position(ids, id) is None,
        first_position(ids, id) matches Some(k) ==> is_first_position(ids, id, k),
{
    if is_first_position(ids, id, i) {
        let k = choose|k: int| is_first_position(ids, id, k);
        assert(k == i) by {
            if k < i {
                assert(ids[k] != id);
            }
            if i < k {
                assert(ids[i] != id);
            }
        }
    }
}

/// The ids of the contenders, in order.
pub open spec fn contender_ids(players: Seq<ContenderProperties>) -> Seq<usize> {
    Seq::new(players.len(), |i: int| players[i].id)
}

/// The ids of the contenders that own the fleets, in order.
pub open spec fn fleet_owner_ids(fleets: Seq<Fleet>) -> Seq<usize> {
    Seq::new(fleets.len(), |i: int| fleets[i].0.id)
}

/// The ids of the planets measured, in order.
pub open spec fn planet_ids(measures: Seq<MeasureView>) -> Seq<usize> {
    Seq::new(measures.len(), |i: int| measures[i].planet_props.id)
}

/// How many ships an enemy could build at once from `extracted`: one for every
/// ten whole units begun.
pub open spec fn phantom_count(extracted: u64) -> int {
    (extracted / Consts::RESOURCE_UNIT + 9) / 10
}

/// The ships an enemy planet stands for: as many as its owner could build.
pub open spec fn phantom_vessels(planet: CelestialProperties, planet_index: usize) -> Seq<
    VesselProperties,
> {
    Seq::new(
        phantom_count(planet.extracted) as nat,
        |k: int|
            VesselProperties {
                id: Consts::NOBODY,
                contender_id: planet.contender_id,
                celestial_id: planet_index,
            },
    )
}

/// Whether the planet belongs to somebody other than `player_id`.
pub open spec fn enemy_owned(planet: CelestialProperties, player_id: usize) -> bool {
    planet.contender_id != Consts::NOBODY && planet.contender_id != player_id
}

/// The fleets that the contender `player_id` reckons with around a planet:
/// those in orbit and, on an enemy planet, the ships its owner could build.
pub open spec fn reckoned_fleets(
    player_id: usize,
    planet_index: usize,
    planet: CelestialProperties,
    fleets: Seq<Fleet>,
    players: Seq<ContenderProperties>,
) -> Seq<Fleet> {
    if enemy_owned(planet, player_id) {
        fleets.push(
            (
                players[first_position(contender_ids(players), planet.contender_id).unwrap()],
                phantom_vessels(planet, planet_index),
            ),
        )
    } else {
        fleets
    }
}

/// The fresh measure of the planet at `planet_index`.
pub open spec fn measure_of(
    player_id: usize,
    planet_index: usize,
    planet: CelestialProperties,
    fleets: Seq<Fleet>,
    row: Seq<u64>,
    players: Seq<ContenderProperties>,
) -> MeasureView {
    let reckoned = reckoned_fleets(player_id, planet_index, planet, fleets, players);
    MeasureView {
        planet_props: planet,
        fleets: reckoned,
        extracted: planet.extracted,
        ships_count: capped(total_vessels(reckoned) as int),
        allied_ships_count: capped(vessels_of(reckoned, player_id) as int),
        distances: row,
        distance: None,
    }
}

/// The place of the first contender with the id `id`.
pub fn find_contender(players: &[ContenderProperties], id: usize) -> (found: Option<usize>)
    ensures
        found.is_some() == first_position(contender_ids(players@), id).is_some(),
        found matches Some(i) ==> first_position(contender_ids(players@), id) == Some(i as int),
{
    let mut i: usize = 0;
    while i < players.len()
        invariant
            i <= players.len(),
            forall|j: int| 0 <= j < i ==> contender_ids(players@)[j] != id,
        decreases players.len() - i,
    {
        if players[i].id == id {
            proof {
                lemma_first_position(contender_ids(players@), id, i as int);
            }
            return Some(i);
        }
        i += 1;
    }
    proof {
        lemma_first_position(contender_ids(players@), id, 0);
    }
    None
}

/// The place of the first fleet that belongs to the contender `id`.
pub fn find_fleet(ships_by_player: &Vec<ContenderVessels>, id: usize) -> (found: Option<usize>)
    ensures
        found.is_some() == first_position(
            fleet_owner_ids(fleets_of(ships_by_player@)),
            id,
        ).is_some(),
        found matches Some(i) ==> first_position(fleet_owner_ids(fleets_of(ships_by_player@)), id)
            == Some(i as int),
{
    let ghost ids = fleet_owner_ids(fleets_of(ships_by_player@));
    let mut i: usize = 0;
    while i < ships_by_player.len()
        invariant
            i <= ships_by_player.len(),
            ids == fleet_owner_ids(fleets_of(ships_by_player@)),
            forall|j: int| 0 <= j < i ==> ids[j] != id,
        decreases ships_by_player.len() - i,
    {
        if ships_by_player[i].0.id == id {
            proof {
                lemma_first_position(ids, id, i as int);
            }
            return Some(i);
        }
        i += 1;
    }
    proof {
        lemma_first_position(ids, id, 0);
    }
    None
}

/// The place of the first measure of the planet `id`.
pub fn find_planet(measures: &Vec<Measure>, id: usize) -> (found: Option<usize>)
    ensures
        found.is_some() == first_position(planet_ids(measures_view(measures@)), id).is_some(),
        found matches Some(i) ==> first_position(planet_ids(measures_view(measures@)), id) == Some(
            i as int,
        ),
{
    let ghost ids = planet_ids(measures_view(measures@));
    let mut i: usize = 0;
    while i < measures.len()
        invariant
            i <= measures.len(),
            ids == planet_ids(measures_view(measures@)),
            forall|j: int| 0 <= j < i ==> ids[j] != id,
        decreases measures.len() - i,
    {
        if measures[i].planet_props.id == id {
            proof {
                lemma_first_position(ids, id, i as int);
            }
            return Some(i);
        }
        i += 1;
    }
    proof {
        lemma_first_position(ids, id, 0);
    }
    None
}

/// A copy of the vessels.
pub fn copy_vessels(vessels: &Vec<VesselProperties>) -> (copy: Vec<VesselProperties>)
    ensures
        copy@ == vessels@,
{
    let mut copy: Vec<VesselProperties> = Vec::new();
    let mut i: usize = 0;
    while i < vessels.len()
        invariant
            i <= vessels.len(),
            copy@ == vessels@.take(i as int),
        decreases vessels.len() - i,
    {
        copy.push(vessels[i]);
        assert(copy@ == vessels@.take(i + 1));
        i += 1;
    }
    assert(vessels@.take(vessels.len() as int) == vessels@);
    copy
}

/// A copy of the fleets.
pub fn copy_fleets(ships_by_player: &Vec<ContenderVessels>) -> (copy: Vec<ContenderVessels>)
    ensures
        fleets_of(copy@) == fleets_of(ships_by_player@),
{
    let mut copy: Vec<ContenderVessels> = Vec::new();
    let mut i: usize = 0;
    while i < ships_by_player.len()
        invariant
            i <= ships_by_player.len(),
            copy.len() == i,
            forall|j: int|
                0 <= j < i ==> copy[j].0 == ships_by_player[j].0 && copy[j].1@
                    == ships_by_player[j].1@,
        decreases ships_by_player.len() - i,
    {
        let vessels = copy_vessels(&ships_by_player[i].1);
        copy.push((ships_by_player[i].0, vessels));
        i += 1;
    }
    assert(fleets_of(copy@) =~= fleets_of(ships_by_player@));
    copy
}

/// A copy of a row of distances.
pub fn copy_distances(row: &Vec<u64>) -> (copy: Vec<u64>)
    ensures
        copy@ == row@,
{
    let mut copy: Vec<u64> = Vec::new();
    let mut i: usize = 0;
    while i < row.len()
        invariant
            i <= row.len(),
            copy@ == row@.take(i as int),
        decreases row.len() - i,
    {
        copy.push(row[i]);
        assert(copy@ == row@.take(i + 1));
        i += 1;
    }
    assert(row@.take(row.len() as int) == row@);
    copy
}

/// Number of vessels that the contender `id` has around the planet.
pub fn count_vessels_of(ships_by_player: &Vec<ContenderVessels>, id: usize) -> (count: u128)
    ensures
        count == vessels_of(fleets_of(ships_by_player@), id),
{
    let ghost fleets = fleets_of(ships_by_player@);
    let mut count: u128 = 0;
    let mut i: usize = 0;
    while i < ships_by_player.len()
        invariant
            i <= ships_by_player.len(),
            fleets == fleets_of(ships_by_player@),
            count == vessels_of_upto(fleets, id, i as nat),
            count <= i * usize::MAX,
        decreases ships_by_player.len() - i,
    {
        proof {
            lemma_sum_fits(i as int, usize::MAX as int);
        }
        if ships_by_player[i].0.id == id {
            count = count + ships_by_player[i].1.len() as u128;
        }
        i += 1;
    }
    count
}

/// A count as a machine word, capped at the largest.
pub fn cap_count(count: u128) -> (word: usize)
    ensures
        word == capped(count as int),
{
    if count > usize::MAX as u128 {
        usize::MAX
    } else {
        count as usize
    }
}

} // verus!
