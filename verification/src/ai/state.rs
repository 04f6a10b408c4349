//! The artificial contender's state and what it does with it.
use vstd::prelude::*;
use crate::ai::evaluator::{Benefit, MyEvaluator, MyMcts};
use crate::ai::effects::{
    AiStateView, BUILD_DISTANCE, Difficulty, MoveError, after_arrival, after_build,
    after_departure, departed, fleet_at, fleets_with_vessel, gathered, leaving,
    lemma_move_keeps_counts,
};
use crate::ai::fleets::{first_vessels, fleets_with, joined_vessels, later_vessels, surviving_fleets};
use crate::ai::measure::{
    Measure, MeasureView, cap_count, contender_ids, copy_distances, copy_fleets,
    count_vessels_of, enemy_owned, find_contender, find_fleet, find_planet, first_position,
    measure_of, measures_view, phantom_count, phantom_vessels, planet_ids,
    reckoned_fleets, lemma_first_position,
};
use crate::ai::metrics::{Metrics, digest_of, is_allied, no_metrics};
use crate::mcts::{CycleBehaviour, Evaluator, GameState, Mcts, TranspositionHash};
use crate::mcts::manager::{MctsManager, searched, total_visits};
use crate::mcts::node::{MoveInfo, NodeView};
use crate::mcts::search_tree::{
    Memory, PlayoutOutcome, SearchSettings, is_most_visited, is_new_node, made_of, most_visited,
    move_kept, node_kept,
};
use crate::mcts::transposition_table::{
    ApproxTable, is_power_of_two, lemma_table_size_is, occupied_upto,
};
use crate::mcts::tree_policy::UCTPolicy;
use crate::ai::moves::{
    attack_moves_upto, attack_row_upto, build_moves_upto, can_afford, gather_moves_upto,
    gather_row_upto, holds_ground, moves_of, names_measured, none_affords, offered, wait_moves,
    lemma_moves_offered, lemma_some_move, lemma_wait_offered,
};
use crate::model::{
    CelestialProperties, Consts, ContenderProperties, ContenderVessels, VesselProperties,
    fleets_of, lemma_vessels_bounds,
};
use crate::planet::{PlanetBusiness, detachment, possible_losses};
use crate::player::PlayerAction;

verus! {

/// What one artificial contender knows and plans with.
#[derive(Clone, Debug)]
pub struct AiState {
    player: ContenderProperties,
    metrics: Metrics,
    measures: Vec<Measure>,
    difficulty: Difficulty,
}

impl View for AiState {
    type V = AiStateView;

    closed spec fn view(&self) -> AiStateView {
        AiStateView {
            player: self.player,
            metrics: self.metrics,
            measures: measures_view(self.measures@),
            difficulty: self.difficulty,
        }
    }
}

/// One planet of a snapshot of the map: its properties and the fleets around it.
pub type PlanetSnapshot = (CelestialProperties, Vec<ContenderVessels>);

/// The measures that a snapshot of the map gives to the contender `player_id`.
pub open spec fn snapshot_measures(
    player_id: usize,
    planet_distances: Seq<Vec<u64>>,
    players: Seq<ContenderProperties>,
    planets: Seq<PlanetSnapshot>,
) -> Seq<MeasureView> {
    Seq::new(
        planets.len(),
        |i: int|
            measure_of(
                player_id,
                i as usize,
                planets[i].0,
                fleets_of(planets[i].1@),
                planet_distances[i]@,
                players,
            ),
    )
}

/// Whether a snapshot of the map holds what a refresh needs: a row of
/// distances for every planet, and the owner of every enemy planet among
/// the contenders.
pub open spec fn snapshot_complete(
    player_id: usize,
    planet_distances: Seq<Vec<u64>>,
    players: Seq<ContenderProperties>,
    planets: Seq<PlanetSnapshot>,
) -> bool {
    &&& planets.len() <= planet_distances.len()
    &&& forall|i: int|
        0 <= i < planets.len() && enemy_owned((#[trigger] planets[i]).0, player_id)
            ==> first_position(contender_ids(players), planets[i].0.contender_id) is Some
}

/// The ships that the owner of an enemy planet could build at once.
fn phantom_fleet(planet: &CelestialProperties, planet_index: usize) -> (vessels: Vec<
    VesselProperties,
>)
    ensures
        vessels@ == phantom_vessels(*planet, planet_index),
{
    let count: u64 = (planet.extracted / Consts::RESOURCE_UNIT + 9) / 10;
    let mut vessels: Vec<VesselProperties> = Vec::new();
    let mut k: u64 = 0;
    while k < count
        invariant
            k <= count,
            count == phantom_count(planet.extracted),
            vessels.len() == k,
            forall|j: int|
                0 <= j < k ==> vessels[j] == (VesselProperties {
                    id: Consts::NOBODY,
                    contender_id: planet.contender_id,
                    celestial_id: planet_index,
                }),
        decreases count - k,
    {
        vessels.push(
            VesselProperties {
                id: Consts::NOBODY,
                contender_id: planet.contender_id,
                celestial_id: planet_index,
            },
        );
        k += 1;
    }
    assert(vessels@ =~= phantom_vessels(*planet, planet_index));
    vessels
}

impl AiState {
    /// A contender that knows of no planet yet.
    pub fn new(player: ContenderProperties, difficulty: Difficulty) -> (state: Self)
        ensures
            state@.player == player,
            state@.difficulty == difficulty,
            state@.measures.len() == 0,
            state@.metrics == no_metrics(),
            state@.wf(),
    {
        AiState { player, metrics: Metrics::empty(), measures: Vec::new(), difficulty }
    }

    pub fn get_player(&self) -> (player: ContenderProperties)
        ensures
            player == self@.player,
    {
        self.player
    }

    pub fn get_difficulty(&self) -> (difficulty: Difficulty)
        ensures
            difficulty == self@.difficulty,
    {
        self.difficulty
    }

    /// The metrics as the last move left them.
    pub fn get_metrics(&self) -> (metrics: Metrics)
        ensures
            metrics == self@.metrics,
    {
        self.metrics
    }

    /// The measures, one for each planet of the last snapshot.
    pub fn get_measures(&self) -> (measures: &Vec<Measure>)
        ensures
            measures_view(measures@) == self@.measures,
    {
        &self.measures
    }

    /// Rebuilds the measures from a snapshot of the map: for each planet its
    /// properties, its row of distances and the fleets around it. Around a
    /// planet that an enemy owns, the ships that its owner could build from
    /// the planet's spendable resources count as one more fleet of that
    /// owner. No planet counts as reached yet.
    pub fn refresh_measures(
        &mut self,
        planet_distances: &[Vec<u64>],
        players: &[ContenderProperties],
        ships_by_player_by_planet: Vec<PlanetSnapshot>,
    )
        requires
            snapshot_complete(
                old(self)@.player.id,
                planet_distances@,
                players@,
                ships_by_player_by_planet@,
            ),
        ensures
            final(self)@.measures == snapshot_measures(
                old(self)@.player.id,
                planet_distances@,
                players@,
                ships_by_player_by_planet@,
            ),
            final(self)@.player == old(self)@.player,
            final(self)@.metrics == old(self)@.metrics,
            final(self)@.difficulty == old(self)@.difficulty,
            final(self)@.wf(),
    {
        let business = PlanetBusiness::new();
        let player_id = self.player.id;
        let ghost wanted = snapshot_measures(
            player_id,
            planet_distances@,
            players@,
            ships_by_player_by_planet@,
        );
        let mut measures: Vec<Measure> = Vec::new();
        let mut i: usize = 0;
        while i < ships_by_player_by_planet.len()
            invariant
                i <= ships_by_player_by_planet.len(),
                snapshot_complete(
                    player_id,
                    planet_distances@,
                    players@,
                    ships_by_player_by_planet@,
                ),
                wanted == snapshot_measures(
                    player_id,
                    planet_distances@,
                    players@,
                    ships_by_player_by_planet@,
                ),
                measures.len() == i,
                forall|j: int| 0 <= j < i ==> (#[trigger] measures[j])@ == wanted[j],
            decreases ships_by_player_by_planet.len() - i,
        {
            let planet = ships_by_player_by_planet[i].0;
            let mut fleets = copy_fleets(&ships_by_player_by_planet[i].1);
            if planet.contender_id != Consts::NOBODY && planet.contender_id != player_id {
                assert(enemy_owned(ships_by_player_by_planet[i as int].0, player_id));
                match find_contender(players, planet.contender_id) {
                    Some(owner) => {
                        let ghost before = fleets_of(fleets@);
                        let phantoms = phantom_fleet(&planet, i);
                        fleets.push((players[owner], phantoms));
                        assert(fleets_of(fleets@) =~= before.push(
                            (players@[owner as int], phantoms@),
                        ));
                    },
                    None => {},
                }
            }
            assert(fleets_of(fleets@) == reckoned_fleets(
                player_id,
                i,
                planet,
                fleets_of(ships_by_player_by_planet[i as int].1@),
                players@,
            ));
            let ships_count = cap_count(business.count_vessels(&fleets));
            let allied_ships_count = cap_count(count_vessels_of(&fleets, player_id));
            let measure = Measure {
                planet_props: planet,
                distances: copy_distances(&planet_distances[i]),
                distance: None,
                ships_by_player: fleets,
                extracted: planet.extracted,
                ships_count,
                allied_ships_count,
            };
            assert(measure@ == wanted[i as int]);
            measures.push(measure);
            i += 1;
        }
        self.measures = measures;
        assert(self@.measures =~= wanted);
    }
}

impl AiState {
    /// Tests whether a snapshot of the map holds what a refresh needs.
    pub fn complete_snapshot(
        &self,
        planet_distances: &[Vec<u64>],
        players: &[ContenderProperties],
        ships_by_player_by_planet: &Vec<PlanetSnapshot>,
    ) -> (complete: bool)
        ensures
            complete == snapshot_complete(
                self@.player.id,
                planet_distances@,
                players@,
                ships_by_player_by_planet@,
            ),
    {
        let player_id = self.player.id;
        if ships_by_player_by_planet.len() > planet_distances.len() {
            return false;
        }
        let mut i: usize = 0;
        while i < ships_by_player_by_planet.len()
            invariant
                i <= ships_by_player_by_planet.len() <= planet_distances.len(),
                player_id == self@.player.id,
                forall|j: int|
                    0 <= j < i
                        && enemy_owned((#[trigger] ships_by_player_by_planet[j]).0, player_id)
                        ==> first_position(
                        contender_ids(players@),
                        ships_by_player_by_planet[j].0.contender_id,
                    ) is Some,
            decreases ships_by_player_by_planet.len() - i,
        {
            let planet = ships_by_player_by_planet[i].0;
            if planet.contender_id != Consts::NOBODY && planet.contender_id != player_id {
                if find_contender(players, planet.contender_id).is_none() {
                    assert(enemy_owned(ships_by_player_by_planet[i as int].0, player_id));
                    return false;
                }
            }
            i += 1;
        }
        true
    }

    /// Rebuilds the measures from a snapshot of the map, if the snapshot
    /// holds what a refresh needs; leaves everything as it is and says so,
    /// if it does not.
    pub fn try_refresh_measures(
        &mut self,
        planet_distances: &[Vec<u64>],
        players: &[ContenderProperties],
        ships_by_player_by_planet: Vec<PlanetSnapshot>,
    ) -> (refreshed: bool)
        ensures
            refreshed == snapshot_complete(
                old(self)@.player.id,
                planet_distances@,
                players@,
                ships_by_player_by_planet@,
            ),
            !refreshed ==> final(self)@ == old(self)@,
            refreshed ==> final(self)@ == (AiStateView {
                measures: snapshot_measures(
                    old(self)@.player.id,
                    planet_distances@,
                    players@,
                    ships_by_player_by_planet@,
                ),
                ..old(self)@
            }) && final(self)@.wf(),
    {
        if self.complete_snapshot(planet_distances, players, &ships_by_player_by_planet) {
            self.refresh_measures(planet_distances, players, ships_by_player_by_planet);
            true
        } else {
            false
        }
    }

    /// Tests whether the move can be made, and says why not if it cannot.
    pub fn check_move(&self, mov: &PlayerAction) -> (verdict: Result<(), MoveError>)
        ensures
            verdict is Ok <==> self@.accepts(*mov),
            verdict matches Err(reason) ==> self@.refusal(*mov) == Some(reason),
    {
        let business = PlanetBusiness::new();
        let player_id = self.player.id;
        match *mov {
            PlayerAction::Wait => Ok(()),
            PlayerAction::AddShip(on) => {
                match find_planet(&self.measures, on.id) {
                    None => Err(MoveError::UnknownPlanet(on.id)),
                    Some(i) => {
                        if self.measures[i].extracted >= Consts::ADD_SHIP_RESOURCE_COST {
                            Ok(())
                        } else {
                            Err(MoveError::CannotAfford(on.id))
                        }
                    },
                }
            },
            PlayerAction::MoveShips(from, to) => {
                let source = match find_planet(&self.measures, from.id) {
                    None => {
                        return Err(MoveError::UnknownPlanet(from.id));
                    },
                    Some(i) => i,
                };
                let destination = match find_planet(&self.measures, to.id) {
                    None => {
                        return Err(MoveError::UnknownPlanet(to.id));
                    },
                    Some(j) => j,
                };
                if source == destination {
                    return Err(MoveError::SamePlanet(from.id));
                }
                let place = match find_fleet(&self.measures[source].ships_by_player, player_id) {
                    None => {
                        return Err(MoveError::NoFleet(from.id));
                    },
                    Some(e) => e,
                };
                let count = business.count_ships_to_move(
                    self.measures[source].ships_by_player[place].1.len(),
                    Consts::MOVE_SHIP_FLEET_PERCENT,
                );
                if count == 0 {
                    return Ok(());
                }
                if find_fleet(&self.measures[destination].ships_by_player, player_id).is_none() {
                    return Err(MoveError::NoFleet(to.id));
                }
                if from.id >= self.measures[destination].distances.len() {
                    return Err(MoveError::NoDistance(from.id, to.id));
                }
                Ok(())
            },
        }
    }

    /// Builds a ship on the planet of the measure at `i`.
    fn build_ship(&mut self, i: usize)
        requires
            i < old(self)@.measures.len(),
            can_afford(old(self)@.measures[i as int]),
        ensures
            final(self)@ == (AiStateView {
                measures: old(self)@.measures.update(
                    i as int,
                    after_build(old(self)@.measures[i as int], old(self)@.player),
                ),
                ..old(self)@
            }),
    {
        let business = PlanetBusiness::new();
        let player = self.player;
        let ghost before = self@.measures[i as int];
        let vessel = VesselProperties {
            id: Consts::NOBODY,
            contender_id: player.id,
            celestial_id: self.measures[i].planet_props.id,
        };
        let fleets = match find_fleet(&self.measures[i].ships_by_player, player.id) {
            Some(place) => {
                let mut vessels = crate::ai::measure::copy_vessels(
                    &self.measures[i].ships_by_player[place].1,
                );
                vessels.push(vessel);
                fleets_with(&self.measures[i].ships_by_player, place, vessels)
            },
            None => {
                let mut fleets = copy_fleets(&self.measures[i].ships_by_player);
                let ghost copied = fleets_of(fleets@);
                let mut vessels: Vec<VesselProperties> = Vec::new();
                vessels.push(vessel);
                fleets.push((player, vessels));
                assert(fleets_of(fleets@) =~= copied.push((player, seq![vessel])));
                fleets
            },
        };
        assert(fleets_of(fleets@) == fleets_with_vessel(before.fleets, player, vessel));
        let ships_count = cap_count(business.count_vessels(&fleets));
        let allied_ships_count = cap_count(count_vessels_of(&fleets, player.id));
        self.measures[i].ships_by_player = fleets;
        self.measures[i].ships_count = ships_count;
        self.measures[i].allied_ships_count = allied_ships_count;
        self.measures[i].extracted = self.measures[i].extracted - Consts::ADD_SHIP_RESOURCE_COST;
        self.measures[i].distance = Some(BUILD_DISTANCE);
        assert(self.measures[i as int]@ == after_build(before, player));
        assert(self@.measures =~= old(self)@.measures.update(
            i as int,
            after_build(before, player),
        ));
    }

    /// Sends the detachment from the measure at `source` to the one at
    /// `destination` and fights one round of battle there, with the losses
    /// given or, where none are given, with losses drawn by chance.
    fn send_ships(
        &mut self,
        source: usize,
        destination: usize,
        given: Option<&Vec<Option<usize>>>,
    ) -> (used: Ghost<Seq<Option<usize>>>)
        requires
            source < old(self)@.measures.len(),
            destination < old(self)@.measures.len(),
            source != destination,
            fleet_at(old(self)@.measures[source as int], old(self)@.player.id) is Some,
            fleet_at(old(self)@.measures[destination as int], old(self)@.player.id) is Some,
            leaving(old(self)@.measures[source as int], old(self)@.player.id) > 0,
            old(self)@.measures[source as int].planet_props.id
                < old(self)@.measures[destination as int].distances.len(),
        ensures
            final(self)@ == (AiStateView {
                measures: old(self)@.measures.update(
                    source as int,
                    after_departure(old(self)@.measures[source as int], old(self)@.player.id),
                ).update(
                    destination as int,
                    after_arrival(
                        old(self)@.measures[source as int],
                        old(self)@.measures[destination as int],
                        old(self)@.player.id,
                        used@,
                    ),
                ),
                ..old(self)@
            }),
            given matches Some(losses) ==> used@ == losses@,
            given is None ==> possible_losses(
                gathered(
                    old(self)@.measures[source as int],
                    old(self)@.measures[destination as int],
                    old(self)@.player.id,
                ),
                used@,
            ),
    {
        let business = PlanetBusiness::new();
        let player_id = self.player.id;
        let ghost from = self@.measures[source as int];
        let ghost to = self@.measures[destination as int];
        let place = find_fleet(&self.measures[source].ships_by_player, player_id).unwrap();
        let there = find_fleet(&self.measures[destination].ships_by_player, player_id).unwrap();
        let count = business.count_ships_to_move(
            self.measures[source].ships_by_player[place].1.len(),
            Consts::MOVE_SHIP_FLEET_PERCENT,
        );
        assert(count == leaving(from, player_id));
        let staying = later_vessels(&self.measures[source].ships_by_player[place].1, count);
        let moving = first_vessels(&self.measures[source].ships_by_player[place].1, count);
        let left_behind = fleets_with(&self.measures[source].ships_by_player, place, staying);
        assert(fleets_of(left_behind@) == departed(from, player_id));
        let joined = joined_vessels(&self.measures[destination].ships_by_player[there].1, &moving);
        let contested = fleets_with(&self.measures[destination].ships_by_player, there, joined);
        assert(fleets_of(contested@) == gathered(from, to, player_id));

        let rolled: Vec<Option<usize>> = match given {
            Some(_) => Vec::new(),
            None => business.roll_losses(&contested),
        };
        let losses: &Vec<Option<usize>> = match given {
            Some(losses) => losses,
            None => &rolled,
        };
        let fought = surviving_fleets(&contested, losses);
        let outcome = business.resolve_battle(&contested, losses);
        let conquered = match outcome.0 {
            Some(winner) => winner.id == player_id,
            None => false,
        };
        let reach = self.measures[destination].distances[self.measures[source].planet_props.id];

        let left_count = cap_count(business.count_vessels(&left_behind));
        let left_allied = cap_count(count_vessels_of(&left_behind, player_id));
        self.measures[source].ships_by_player = left_behind;
        self.measures[source].ships_count = left_count;
        self.measures[source].allied_ships_count = left_allied;
        self.measures[source].distance = Some(0);
        assert(self.measures[source as int]@ == after_departure(from, player_id));

        let fought_count = cap_count(business.count_vessels(&fought));
        let fought_allied = cap_count(count_vessels_of(&fought, player_id));
        self.measures[destination].ships_by_player = fought;
        self.measures[destination].ships_count = fought_count;
        self.measures[destination].allied_ships_count = fought_allied;
        self.measures[destination].distance = Some(reach);
        if conquered {
            self.measures[destination].planet_props.contender_id = player_id;
        }
        assert(self.measures[destination as int]@ == after_arrival(
            from,
            to,
            player_id,
            losses@,
        ));
        assert(self@.measures =~= old(self)@.measures.update(
            source as int,
            after_departure(from, player_id),
        ).update(destination as int, after_arrival(from, to, player_id, losses@)));
        Ghost(losses@)
    }

    /// Makes the move with the losses given or, where none are given, with
    /// losses drawn by chance; returns the losses that the battle took.
    fn run_move(&mut self, mov: &PlayerAction, given: Option<&Vec<Option<usize>>>) -> (used: Ghost<
        Seq<Option<usize>>,
    >)
        ensures
            final(self)@ == old(self)@.after_move(*mov, used@),
            old(self)@.wf() ==> final(self)@.wf(),
            given matches Some(losses) ==> used@ == losses@,
            given is None ==> possible_losses(old(self)@.contested_fleets(*mov), used@),
    {
        let business = PlanetBusiness::new();
        let player_id = self.player.id;
        let ghost mut used: Seq<Option<usize>> = match given {
            Some(losses) => losses@,
            None => Seq::empty(),
        };
        proof {
            lemma_first_position(planet_ids(self@.measures), 0, 0);
        }
        match self.check_move(mov) {
            Ok(()) => {},
            Err(MoveError::CannotAfford(_)) => {
                self.metrics = Metrics::measure(&self.measures, player_id);
                return Ghost(used);
            },
            Err(_) => {
                return Ghost(used);
            },
        }
        match *mov {
            PlayerAction::Wait => {},
            PlayerAction::AddShip(on) => {
                let i = find_planet(&self.measures, on.id).unwrap();
                proof {
                    lemma_first_position(planet_ids(self@.measures), on.id, 0);
                }
                self.build_ship(i);
            },
            PlayerAction::MoveShips(from, to) => {
                let source = find_planet(&self.measures, from.id).unwrap();
                let destination = find_planet(&self.measures, to.id).unwrap();
                proof {
                    lemma_first_position(planet_ids(self@.measures), from.id, 0);
                    lemma_first_position(planet_ids(self@.measures), to.id, 0);
                }
                let place = find_fleet(&self.measures[source].ships_by_player, player_id).unwrap();
                let count = business.count_ships_to_move(
                    self.measures[source].ships_by_player[place].1.len(),
                    Consts::MOVE_SHIP_FLEET_PERCENT,
                );
                if count > 0 {
                    let taken = self.send_ships(source, destination, given);
                    proof {
                        used = taken@;
                    }
                }
            },
        }
        self.metrics = Metrics::measure(&self.measures, player_id);
        proof {
            if old(self)@.wf() {
                lemma_move_keeps_counts(old(self)@, *mov, used);
            }
        }
        Ghost(used)
    }

    /// Makes the move, with `losses` as the outcome of the battle that the
    /// move brings about: for each fleet that meets at the destination, the
    /// place of the vessel it loses. A move that cannot be made changes
    /// nothing.
    pub fn apply_move(&mut self, mov: &PlayerAction, losses: &Vec<Option<usize>>)
        ensures
            final(self)@ == old(self)@.after_move(*mov, losses@),
            old(self)@.wf() ==> final(self)@.wf(),
    {
        let _ = self.run_move(mov, Some(losses));
    }
}

impl GameState for AiState {
    type Move = PlayerAction;

    type Player = ContenderProperties;

    /// A move is accepted unless it names a planet that is not measured, or
    /// ships without a fleet to leave or to join or a distance to cover.
    open spec fn accepts(&self, mov: &PlayerAction) -> bool {
        self@.admits(*mov)
    }

    /// The position after the move, for some losses that chance can take in
    /// the battle that the move brings about.
    open spec fn moved(before: &Self, mov: &PlayerAction, after: &Self) -> bool {
        exists|losses: Seq<Option<usize>>|
            #![trigger possible_losses(before@.contested_fleets(*mov), losses)]
            possible_losses(before@.contested_fleets(*mov), losses) && after@
                == before@.after_move(*mov, losses)
    }

    fn can_make(&self, mov: &PlayerAction) -> (can: bool) {
        match self.check_move(mov) {
            Ok(()) => true,
            Err(MoveError::CannotAfford(_)) => true,
            Err(_) => false,
        }
    }

    /// The moves that the contender weighs, in this order: `Wait`, if no
    /// allied planet can afford a ship; one `AddShip` for each allied planet
    /// that can; `MoveShips` between allied planets, from each that holds its
    /// ground to every one after it; `MoveShips` from every allied planet to
    /// every planet that is not allied.
    fn available_moves(&self) -> (moves: Vec<PlayerAction>)
        ensures
            moves@ == moves_of(self@.measures, self@.player.id),
            forall|k: int|
                0 <= k < moves.len() ==> offered(
                    self@.measures,
                    self@.player.id,
                    #[trigger] moves[k],
                ) && names_measured(self@.measures, moves[k]),
            moves@.contains(PlayerAction::Wait) <==> none_affords(self@.measures, self@.player.id),
    {
        let business = PlanetBusiness::new();
        let player_id = self.player.id;
        let count = self.measures.len();
        let ghost views = measures_view(self.measures@);
        let mut moves: Vec<PlayerAction> = Vec::new();

        let mut nothing_to_build = true;
        let mut i: usize = 0;
        while i < count
            invariant
                i <= count == self.measures.len(),
                views == measures_view(self.measures@),
                nothing_to_build <==> forall|j: int|
                    0 <= j < i && is_allied(#[trigger] views[j], player_id) ==> !can_afford(
                        views[j],
                    ),
            decreases count - i,
        {
            if self.measures[i].planet_props.contender_id == player_id && self.measures[i].extracted
                >= Consts::ADD_SHIP_RESOURCE_COST {
                assert(is_allied(views[i as int], player_id) && can_afford(views[i as int]));
                nothing_to_build = false;
            }
            i += 1;
        }
        if nothing_to_build {
            moves.push(PlayerAction::Wait);
        }
        assert(moves@ =~= wait_moves(views, player_id));

        let ghost waits = moves@;
        i = 0;
        while i < count
            invariant
                i <= count == self.measures.len(),
                views == measures_view(self.measures@),
                moves@ == waits + build_moves_upto(views, player_id, i as nat),
            decreases count - i,
        {
            if self.measures[i].planet_props.contender_id == player_id && self.measures[i].extracted
                >= Consts::ADD_SHIP_RESOURCE_COST {
                moves.push(PlayerAction::AddShip(self.measures[i].planet_props));
            }
            assert(moves@ =~= waits + build_moves_upto(views, player_id, (i + 1) as nat));
            i += 1;
        }

        let ghost builds = moves@;
        i = 0;
        while i < count
            invariant
                i <= count == self.measures.len(),
                views == measures_view(self.measures@),
                moves@ == builds + gather_moves_upto(views, player_id, i as nat),
            decreases count - i,
        {
            let ghost before = moves@;
            if self.measures[i].planet_props.contender_id == player_id {
                let around: u128 = business.count_vessels(&self.measures[i].ships_by_player);
                let allied: u128 = count_vessels_of(&self.measures[i].ships_by_player, player_id);
                proof {
                    lemma_vessels_bounds(
                        views[i as int].fleets,
                        player_id,
                        views[i as int].fleets.len(),
                        views[i as int].fleets.len(),
                    );
                }
                let others: u128 = around - allied;
                if allied > 1 && (others < allied || others - allied < allied) {
                    assert(holds_ground(views[i as int]));
                    let mut j: usize = i + 1;
                    while j < count
                        invariant
                            i < j <= count == self.measures.len(),
                            views == measures_view(self.measures@),
                            moves@ == before + gather_row_upto(
                                views,
                                player_id,
                                i as int,
                                j as nat,
                            ),
                        decreases count - j,
                    {
                        if self.measures[j].planet_props.contender_id == player_id {
                            moves.push(
                                PlayerAction::MoveShips(
                                    self.measures[i].planet_props,
                                    self.measures[j].planet_props,
                                ),
                            );
                        }
                        assert(moves@ =~= before + gather_row_upto(
                            views,
                            player_id,
                            i as int,
                            (j + 1) as nat,
                        ));
                        j += 1;
                    }
                } else {
                    assert(!holds_ground(views[i as int]));
                }
            }
            assert(moves@ =~= builds + gather_moves_upto(views, player_id, (i + 1) as nat));
            i += 1;
        }

        let ghost gathers = moves@;
        i = 0;
        while i < count
            invariant
                i <= count == self.measures.len(),
                views == measures_view(self.measures@),
                moves@ == gathers + attack_moves_upto(views, player_id, i as nat),
            decreases count - i,
        {
            let ghost before = moves@;
            if self.measures[i].planet_props.contender_id == player_id {
                let mut j: usize = 0;
                while j < count
                    invariant
                        i < count == self.measures.len(),
                        j <= count,
                        views == measures_view(self.measures@),
                        moves@ == before + attack_row_upto(views, player_id, i as int, j as nat),
                    decreases count - j,
                {
                    if self.measures[j].planet_props.contender_id != player_id {
                        moves.push(
                            PlayerAction::MoveShips(
                                self.measures[i].planet_props,
                                self.measures[j].planet_props,
                            ),
                        );
                    }
                    assert(moves@ =~= before + attack_row_upto(
                        views,
                        player_id,
                        i as int,
                        (j + 1) as nat,
                    ));
                    j += 1;
                }
            }
            assert(moves@ =~= gathers + attack_moves_upto(views, player_id, (i + 1) as nat));
            i += 1;
        }
        proof {
            assert(moves@ =~= moves_of(views, player_id));
            assert forall|k: int| 0 <= k < moves.len() implies offered(
                views,
                player_id,
                #[trigger] moves[k],
            ) && names_measured(views, moves[k]) by {
                lemma_moves_offered(views, player_id, k);
            }
            lemma_wait_offered(views, player_id);
        }
        moves
    }

    /// Makes the move in the simulation. `AddShip` pays the price of a ship
    /// from the planet's spendable resources and adds a ship of the
    /// contender; `MoveShips` sends the detachment to the destination and
    /// fights one round of battle there, whose losses chance decides; `Wait`
    /// leaves the planets alone. After any of them the metrics are derived
    /// anew. A build that the planet cannot afford changes nothing. A move
    /// that names a planet that is not measured, or ships without a fleet or
    /// a distance, is an error of the caller: `can_make` and `check_move`
    /// tell.
    fn make_move(&mut self, mov: &PlayerAction)
        ensures
            exists|losses: Seq<Option<usize>>|
                possible_losses(old(self)@.contested_fleets(*mov), losses)
                    && final(self)@ == old(self)@.after_move(*mov, losses),
            old(self)@.wf() ==> final(self)@.wf(),
    {
        let used = self.run_move(mov, None);
        assert(possible_losses(old(self)@.contested_fleets(*mov), used@));
    }

    fn current_player(&self) -> (player: ContenderProperties)
        ensures
            player == self@.player,
    {
        self.player
    }
}

impl TranspositionHash for AiState {
    /// The key of the position: the fingerprint of its metrics and of
    /// nothing else, so that positions with the same metrics share a key.
    fn hash(&self) -> (key: u64)
        ensures
            key == digest_of(self@.metrics),
    {
        self.metrics.digest()
    }
}

/// The settings with which the artificial contender searches: no virtual
/// loss, a node is searched further after its first visit, no limit on
/// nodes, a million moves to a playout at most, and a playout that comes to
/// a position twice stops there.
pub open spec fn search_settings() -> SearchSettings {
    SearchSettings {
        virtual_loss: 0,
        visits_before_expansion: 1,
        node_limit: usize::MAX,
        max_playout_length: 1_000_000,
        cycle_behaviour: CycleBehaviour::UseCurrentEvalWhenCycleDetected,
    }
}

/// How many slots the transposition table of a search has.
pub const SEARCH_TABLE_CAPACITY: usize = 2048;

/// How many playouts a search runs.
pub const SEARCH_PLAYOUTS: u64 = 512;

/// The exploration constant for a difficulty, in ten-thousandths: 0.2 when
/// easy, 0.6 when medium, 1 when hard.
pub open spec fn exploration_for(difficulty: Difficulty) -> u64 {
    match difficulty {
        Difficulty::Easy => 2_000,
        Difficulty::Medium => 6_000,
        Difficulty::Hard => 10_000,
    }
}

impl AiState {
    /// A copy of the state.
    pub fn duplicate(&self) -> (copy: Self)
        ensures
            copy@ == self@,
    {
        let mut measures: Vec<Measure> = Vec::new();
        let mut i: usize = 0;
        while i < self.measures.len()
            invariant
                i <= self.measures.len(),
                measures.len() == i,
                forall|j: int| 0 <= j < i ==> (#[trigger] measures[j])@ == self.measures[j]@,
            decreases self.measures.len() - i,
        {
            let measure = &self.measures[i];
            measures.push(
                Measure {
                    planet_props: measure.planet_props,
                    ships_by_player: copy_fleets(&measure.ships_by_player),
                    extracted: measure.extracted,
                    ships_count: measure.ships_count,
                    allied_ships_count: measure.allied_ships_count,
                    distances: copy_distances(&measure.distances),
                    distance: measure.distance,
                },
            );
            i += 1;
        }
        let copy = AiState {
            player: self.player,
            metrics: self.metrics,
            measures,
            difficulty: self.difficulty,
        };
        assert(copy@.measures =~= self@.measures);
        copy
    }

    /// The search that the contender runs from its position, before any
    /// playout: upper confidence bounds with the exploration constant of
    /// its difficulty, a transposition table, and `evaluator` to judge
    /// positions.
    pub fn start_search<E: Evaluator<AiState>>(&self, evaluator: E) -> (search: MctsManager<
        MyMcts,
        E,
    >)
        ensures
            search.wf(),
            search.view_tree().root()@ == self@,
            search.view_tree().evaluator() == evaluator,
            search.view_tree().settings() == search_settings(),
            search.view_tree().policy().constant() == exploration_for(self@.difficulty),
            search.view_tree().table_capacity() == SEARCH_TABLE_CAPACITY,
            search.nodes().len() == 1,
            is_new_node(search.nodes()[0], moves_of(self@.measures, self@.player.id)),
            made_of(search.nodes()[0], &search.view_tree().root(), &evaluator),
            total_visits(search.nodes()[0].moves) == 0,
            search.view_tree().table_entries() == 0,
            search.view_tree().table_hits() == 0,
    {
        let constant: u64 = match self.difficulty {
            Difficulty::Easy => 2_000,
            Difficulty::Medium => 6_000,
            Difficulty::Hard => 10_000,
        };
        let table = ApproxTable::new(SEARCH_TABLE_CAPACITY);
        let slots = table.capacity();
        proof {
            assert(is_power_of_two(SEARCH_TABLE_CAPACITY as nat)) by {
                reveal_with_fuel(is_power_of_two, 12);
            }
            lemma_table_size_is(SEARCH_TABLE_CAPACITY, slots);
        }
        let manager = MyMcts;
        let settings = SearchSettings {
            virtual_loss: manager.virtual_loss(),
            visits_before_expansion: manager.visits_before_expansion(),
            node_limit: manager.node_limit(),
            max_playout_length: manager.max_playout_length(),
            cycle_behaviour: manager.cycle_behaviour(),
        };
        MctsManager::with_settings(
            self.duplicate(),
            settings,
            evaluator,
            UCTPolicy::new(constant),
            table,
        )
    }

    /// The move that the contender makes when a search recommends
    /// `recommended`: the recommended move, if it is one of the moves open to
    /// the contender; `Wait` if it is not, or if the search recommends none.
    pub fn settle_on(&self, recommended: Option<PlayerAction>) -> (action: PlayerAction)
        ensures
            action == match recommended {
                Some(found) => if moves_of(self@.measures, self@.player.id).contains(found) {
                    found
                } else {
                    PlayerAction::Wait
                },
                None => PlayerAction::Wait,
            },
            action == PlayerAction::Wait || offered(self@.measures, self@.player.id, action),
            names_measured(self@.measures, action),
    {
        let found = match recommended {
            Some(found) => found,
            None => {
                return PlayerAction::Wait;
            },
        };
        let moves = self.available_moves();
        let mut k: usize = 0;
        while k < moves.len()
            invariant
                k <= moves.len(),
                recommended == Some(found),
                moves@ == moves_of(self@.measures, self@.player.id),
                forall|j: int| 0 <= j < k ==> moves[j] != found,
                forall|j: int|
                    0 <= j < moves.len() ==> offered(
                        self@.measures,
                        self@.player.id,
                        #[trigger] moves[j],
                    ) && names_measured(self@.measures, moves[j]),
            decreases moves.len() - k,
        {
            if moves[k] == found {
                assert(moves@[k as int] == found);
                return found;
            }
            k += 1;
        }
        assert(!moves@.contains(found));
        PlayerAction::Wait
    }

    /// The move that a search from the position recommends, where
    /// `benefit` says what the metrics of a position are worth. The search
    /// starts from a tree that has the root alone, with the moves open to
    /// the contender, and runs its playouts on it, one after the other. It
    /// recommends the move at the root that they have tried most often, the
    /// last of them where several were: always one of the moves open to the
    /// contender, and `Wait` only where waiting is open. No playout of it is
    /// given up for its length, for a cycle or for want of room, so the
    /// search runs all its playouts and has then tried the moves at the
    /// root as often as there are playouts, unless a playout came to a move
    /// that the position it had reached does not admit, which ends the
    /// search there.
    pub fn get_best_move<B: Benefit>(&self, benefit: B) -> (action: PlayerAction)
        ensures
            moves_of(self@.measures, self@.player.id).contains(action),
            offered(self@.measures, self@.player.id, action),
            names_measured(self@.measures, action),
            exists|tried: Seq<MoveInfo<PlayerAction>>, outcome: PlayoutOutcome| #[trigger]
                search_made(self@, benefit, tried, outcome) && most_tried(
                    moves_of(self@.measures, self@.player.id),
                    tried,
                    action,
                ) && (outcome == PlayoutOutcome::Finished || outcome
                    == PlayoutOutcome::MoveRefused) && total_visits(tried) <= SEARCH_PLAYOUTS && (
                outcome == PlayoutOutcome::Finished ==> total_visits(tried) == SEARCH_PLAYOUTS),
    {
        let ghost moves = moves_of(self@.measures, self@.player.id);
        let evaluator = MyEvaluator::new(benefit);
        let mut search = self.start_search(evaluator);
        let ghost fresh = search.nodes();
        let ghost started = search.view_tree();
        let outcome = search.playout_n(SEARCH_PLAYOUTS);
        let ghost tried = search.nodes()[0].moves;
        proof {
            lemma_some_move(self@.measures, self@.player.id);
            assert(node_kept(fresh[0], search.nodes()[0]));
            assert forall|m: int| 0 <= m < moves.len() implies (#[trigger] tried[m]).mov
                == moves[m] by {
                assert(move_kept(fresh[0].moves[m], tried[m]));
            }
            assert(searched::<AiState, MyEvaluator<B>>(
                started.root(),
                &started.evaluator(),
                started.policy(),
                search_settings(),
                fresh,
                started.memory(),
                search.nodes(),
                search.view_tree().memory(),
                SEARCH_PLAYOUTS as nat,
                outcome,
            ));
            assert(search_made(self@, benefit, tried, outcome));
        }
        let recommended = search.best_move();
        let action = self.settle_on(recommended);
        proof {
            let best = most_visited(tried);
            assert(recommended == Some(tried[best].mov));
            assert(moves[best] == tried[best].mov);
            assert(most_tried(moves, tried, action));
            let k = choose|k: int| 0 <= k < moves.len() && moves[k] == action;
            lemma_moves_offered(self@.measures, self@.player.id, k);
        }
        action
    }
}

/// `tried` is what a search of the artificial contender from `position`,
/// with `benefit` to judge positions, has learned of the moves at its root,
/// and `outcome` is how it ended: the search has the settings and the
/// exploration constant of such a search, it started from a tree of one
/// node, the root with the moves open to the contender in `position`, none
/// of them tried, judged as the evaluator judges the position, and from an
/// empty table, and `tried` are the moves of the root in the tree that its
/// playouts have made of that one.
pub open spec fn search_made<B: Benefit>(
    position: AiStateView,
    benefit: B,
    tried: Seq<MoveInfo<PlayerAction>>,
    outcome: PlayoutOutcome,
) -> bool {
    exists|
        root: AiState,
        evaluator: MyEvaluator<B>,
        policy: UCTPolicy,
        start: Seq<NodeView<PlayerAction>>,
        memory: Memory,
        after: Seq<NodeView<PlayerAction>>,
        memory_after: Memory,
    | #[trigger]
        searched::<AiState, MyEvaluator<B>>(
            root,
            &evaluator,
            policy,
            search_settings(),
            start,
            memory,
            after,
            memory_after,
            SEARCH_PLAYOUTS as nat,
            outcome,
        ) && occupied_upto(memory.slots, memory.slots.len()) == 0 && memory.hits == 0 && root@
            == position && evaluator.rule() == benefit && policy.constant()
            == exploration_for(position.difficulty) && start.len() == 1 && is_new_node(
            start[0],
            moves_of(position.measures, position.player.id),
        ) && made_of(start[0], &root, &evaluator) && after[0].moves == tried
}

/// `action` is the move among `moves` that was tried most often, the last of
/// them where several were; `tried` says of each move how often it was.
pub open spec fn most_tried(
    moves: Seq<PlayerAction>,
    tried: Seq<MoveInfo<PlayerAction>>,
    action: PlayerAction,
) -> bool {
    &&& tried.len() == moves.len()
    &&& forall|m: int| 0 <= m < moves.len() ==> (#[trigger] tried[m]).mov == moves[m]
    &&& is_most_visited(tried, most_visited(tried))
    &&& action == moves[most_visited(tried)]
}

} // verus!
