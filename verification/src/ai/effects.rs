//! What a move does to the artificial contender's picture of the map.
use vstd::prelude::*;
use crate::ai::measure::{MeasureView, first_position, fleet_owner_ids, planet_ids};
use crate::ai::metrics::{Metrics, metrics_of};
use crate::ai::moves::can_afford;
use crate::model::{CelestialProperties, Consts, ContenderProperties, Fleet, VesselProperties};
use crate::planet::{detachment, survivors_of, winner_of};
use crate::player::PlayerAction;

verus! {

/// How hard the artificial contender searches.
#[derive(Debug, Copy, Clone, PartialEq, Eq, Structural)]
pub enum Difficulty {
    Easy,
    Medium,
    Hard,
}

/// The cost to reach a planet on which a ship was just built: a tenth of a unit.
pub const BUILD_DISTANCE: u64 = 1_000;

/// Mathematical counterpart of `AiState`.
pub struct AiStateView {
    pub player: ContenderProperties,
    pub metrics: Metrics,
    pub measures: Seq<MeasureView>,
    pub difficulty: Difficulty,
}

/// Why a move cannot be made.
#[derive(Debug, Copy, Clone, PartialEq, Eq, Structural)]
pub enum MoveError {
    /// No measure of the planet with this id.
    UnknownPlanet(usize),
    /// The planet with this id has not the price of a ship.
    CannotAfford(usize),
    /// Source and destination are one planet, the one with this id.
    SamePlanet(usize),
    /// The contender has no fleet, not even an empty one, around the planet with this id.
    NoFleet(usize),
    /// The planet with the second id knows no distance to the planet with the first.
    NoDistance(usize, usize),
}

/// Where the measure of the planet `id` is.
pub open spec fn planet_at(measures: Seq<MeasureView>, id: usize) -> Option<int> {
    first_position(planet_ids(measures), id)
}

/// Where the fleet of the contender `player_id` is among the fleets of the planet.
pub open spec fn fleet_at(measure: MeasureView, player_id: usize) -> Option<int> {
    first_position(fleet_owner_ids(measure.fleets), player_id)
}

/// How many ships of the contender `player_id` leave the planet when its
/// fleet there is sent away.
pub open spec fn leaving(measure: MeasureView, player_id: usize) -> int {
    detachment(
        measure.fleets[fleet_at(measure, player_id).unwrap()].1.len() as usize,
        Consts::MOVE_SHIP_FLEET_PERCENT,
    )
}

/// The ship that a simulated build adds.
pub open spec fn built_vessel(player_id: usize, planet_id: usize) -> VesselProperties {
    VesselProperties { id: Consts::NOBODY, contender_id: player_id, celestial_id: planet_id }
}

/// The fleets with one more vessel for `player`: in its first fleet, or in a
/// new fleet at the end if it has none.
pub open spec fn fleets_with_vessel(
    fleets: Seq<Fleet>,
    player: ContenderProperties,
    vessel: VesselProperties,
) -> Seq<Fleet> {
    match first_position(fleet_owner_ids(fleets), player.id) {
        Some(place) => fleets.update(place, (fleets[place].0, fleets[place].1.push(vessel))),
        None => fleets.push((player, seq![vessel])),
    }
}

/// The planet after `player` has built a ship on it.
pub open spec fn after_build(measure: MeasureView, player: ContenderProperties) -> MeasureView {
    MeasureView {
        extracted: (measure.extracted - Consts::ADD_SHIP_RESOURCE_COST) as u64,
        distance: Some(BUILD_DISTANCE),
        ..measure
    }.with_fleets(
        fleets_with_vessel(
            measure.fleets,
            player,
            built_vessel(player.id, measure.planet_props.id),
        ),
        player.id,
    )
}

/// The fleets around the source once the detachment of `player_id` has left.
pub open spec fn departed(source: MeasureView, player_id: usize) -> Seq<Fleet> {
    let place = fleet_at(source, player_id).unwrap();
    source.fleets.update(
        place,
        (source.fleets[place].0, source.fleets[place].1.skip(leaving(source, player_id))),
    )
}

/// The fleets around the destination once the detachment has arrived.
pub open spec fn gathered(source: MeasureView, destination: MeasureView, player_id: usize) -> Seq<
    Fleet,
> {
    let place = fleet_at(source, player_id).unwrap();
    let there = fleet_at(destination, player_id).unwrap();
    destination.fleets.update(
        there,
        (
            destination.fleets[there].0,
            destination.fleets[there].1 + source.fleets[place].1.take(
                leaving(source, player_id),
            ),
        ),
    )
}

/// The source planet after the detachment has left.
pub open spec fn after_departure(source: MeasureView, player_id: usize) -> MeasureView {
    MeasureView { distance: Some(0), ..source }.with_fleets(
        departed(source, player_id),
        player_id,
    )
}

/// The destination after the detachment has arrived and a round of battle
/// has taken what `losses` says. The planet falls to the contender
/// `player_id` if it is then alone there.
pub open spec fn after_arrival(
    source: MeasureView,
    destination: MeasureView,
    player_id: usize,
    losses: Seq<Option<usize>>,
) -> MeasureView {
    let fought = survivors_of(gathered(source, destination, player_id), losses);
    let conquered = winner_of(fought) is Some && winner_of(fought).unwrap().id == player_id;
    MeasureView {
        planet_props: if conquered {
            CelestialProperties { contender_id: player_id, ..destination.planet_props }
        } else {
            destination.planet_props
        },
        distance: Some(destination.distances[source.planet_props.id as int]),
        ..destination
    }.with_fleets(fought, player_id)
}

impl AiStateView {
    /// Every measure counts its ships as its fleets hold them.
    pub open spec fn wf(self) -> bool {
        forall|i: int|
            0 <= i < self.measures.len() ==> (#[trigger] self.measures[i]).counts_agree(
                self.player.id,
            )
    }

    /// Why the move cannot be made, if it cannot.
    pub open spec fn refusal(self, mov: PlayerAction) -> Option<MoveError> {
        match mov {
            PlayerAction::Wait => None,
            PlayerAction::AddShip(on) => match planet_at(self.measures, on.id) {
                None => Some(MoveError::UnknownPlanet(on.id)),
                Some(i) => if can_afford(self.measures[i]) {
                    None
                } else {
                    Some(MoveError::CannotAfford(on.id))
                },
            },
            PlayerAction::MoveShips(from, to) => match (
                planet_at(self.measures, from.id),
                planet_at(self.measures, to.id),
            ) {
                (None, _) => Some(MoveError::UnknownPlanet(from.id)),
                (Some(_), None) => Some(MoveError::UnknownPlanet(to.id)),
                (Some(i), Some(j)) => if i == j {
                    Some(MoveError::SamePlanet(from.id))
                } else if fleet_at(self.measures[i], self.player.id) is None {
                    Some(MoveError::NoFleet(from.id))
                } else if leaving(self.measures[i], self.player.id) <= 0 {
                    None
                } else if fleet_at(self.measures[j], self.player.id) is None {
                    Some(MoveError::NoFleet(to.id))
                } else if from.id >= self.measures[j].distances.len() {
                    Some(MoveError::NoDistance(from.id, to.id))
                } else {
                    None
                },
            },
        }
    }

    /// Whether the move can be made: every planet it names is measured, a
    /// build is paid for, and ships that move have a fleet to leave, a fleet
    /// to join and a distance to cover.
    pub open spec fn accepts(self, mov: PlayerAction) -> bool {
        self.refusal(mov) is None
    }

    /// Whether the move is one that a caller may ask for: it can be made, or
    /// it is a build that the planet cannot afford, which changes nothing. A
    /// move that names a planet that is not measured, or ships without a
    /// fleet or a distance, is an error of the caller.
    pub open spec fn admits(self, mov: PlayerAction) -> bool {
        self.refusal(mov) is None || self.refusal(mov) matches Some(MoveError::CannotAfford(_))
    }

    /// Whether the move sends at least one ship on its way.
    pub open spec fn sends_ships(self, mov: PlayerAction) -> bool {
        &&& mov is MoveShips
        &&& self.accepts(mov)
        &&& leaving(
            self.measures[planet_at(self.measures, mov->MoveShips_0.id).unwrap()],
            self.player.id,
        ) > 0
    }

    /// The fleets that meet in battle when the move is made: those around
    /// the destination with the detachment among them. Empty for a move that
    /// sends no ship.
    pub open spec fn contested_fleets(self, mov: PlayerAction) -> Seq<Fleet> {
        if self.sends_ships(mov) {
            gathered(
                self.measures[planet_at(self.measures, mov->MoveShips_0.id).unwrap()],
                self.measures[planet_at(self.measures, mov->MoveShips_1.id).unwrap()],
                self.player.id,
            )
        } else {
            Seq::empty()
        }
    }

    /// The measures after an accepted move, where the battle that the move
    /// brings about takes what `losses` says.
    pub open spec fn measures_after(self, mov: PlayerAction, losses: Seq<Option<usize>>) -> Seq<
        MeasureView,
    > {
        match mov {
            PlayerAction::Wait => self.measures,
            PlayerAction::AddShip(on) => {
                let i = planet_at(self.measures, on.id).unwrap();
                self.measures.update(i, after_build(self.measures[i], self.player))
            },
            PlayerAction::MoveShips(from, to) => {
                let i = planet_at(self.measures, from.id).unwrap();
                let j = planet_at(self.measures, to.id).unwrap();
                if self.sends_ships(mov) {
                    self.measures.update(
                        i,
                        after_departure(self.measures[i], self.player.id),
                    ).update(
                        j,
                        after_arrival(self.measures[i], self.measures[j], self.player.id, losses),
                    )
                } else {
                    self.measures
                }
            },
        }
    }

    /// The state after the move: the measures as the move leaves them, and
    /// the metrics derived anew from all of them. A build that the planet
    /// cannot afford leaves the measures as they are; the metrics are derived
    /// anew all the same. A move that names a planet that is not measured, or
    /// ships without a fleet or a distance, changes nothing.
    pub open spec fn after_move(self, mov: PlayerAction, losses: Seq<Option<usize>>)
        -> AiStateView {
        if self.accepts(mov) {
            AiStateView {
                measures: self.measures_after(mov, losses),
                metrics: metrics_of(self.measures_after(mov, losses), self.player.id),
                ..self
            }
        } else if self.admits(mov) {
            AiStateView { metrics: metrics_of(self.measures, self.player.id), ..self }
        } else {
            self
        }
    }
}

/// A move keeps the ship counts in line with the fleets.
pub proof fn lemma_move_keeps_counts(
    state: AiStateView,
    mov: PlayerAction,
    losses: Seq<Option<usize>>,
)
    requires
        state.wf(),
    ensures
        state.after_move(mov, losses).wf(),
        state.after_move(mov, losses).measures.len() == state.measures.len(),
        state.after_move(mov, losses).player == state.player,
        state.after_move(mov, losses).difficulty == state.difficulty,
{
    let after = state.after_move(mov, losses);
    if state.accepts(mov) {
        crate::ai::measure::lemma_first_position(planet_ids(state.measures), 0, 0);
        match mov {
            PlayerAction::Wait => {},
            PlayerAction::AddShip(on) => {
                crate::ai::measure::lemma_first_position(planet_ids(state.measures), on.id, 0);
            },
            PlayerAction::MoveShips(from, to) => {
                crate::ai::measure::lemma_first_position(planet_ids(state.measures), from.id, 0);
                crate::ai::measure::lemma_first_position(planet_ids(state.measures), to.id, 0);
            },
        }
        assert forall|i: int| 0 <= i < after.measures.len() implies (
        #[trigger] after.measures[i]).counts_agree(after.player.id) by {
            assert(state.measures[i].counts_agree(state.player.id));
        }
    }
}

} // verus!
