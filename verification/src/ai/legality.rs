//! On a map that is seen whole, every move that is offered can be made.
use vstd::prelude::*;
use crate::ai::effects::{AiStateView, fleet_at, planet_at};
use crate::ai::measure::{
    MeasureView, first_position, fleet_owner_ids, is_first_position, planet_ids,
    lemma_first_position,
};
use crate::ai::moves::{builds_at, moves_between, moves_of, lemma_moves_offered};
use crate::model::Fleet;
use crate::player::PlayerAction;

verus! {

impl AiStateView {
    /// The map is seen whole: no two measures are of the same planet, the
    /// contender has a fleet, if only an empty one, around every planet, and
    /// every planet knows its distance to every other.
    pub open spec fn complete(self) -> bool {
        &&& forall|i: int, j: int|
            0 <= i < j < self.measures.len() ==> (#[trigger] self.measures[i]).planet_props.id != (
            #[trigger] self.measures[j]).planet_props.id
        &&& forall|i: int|
            0 <= i < self.measures.len() ==> fleet_at(#[trigger] self.measures[i], self.player.id)
                is Some
        &&& forall|i: int, j: int|
            0 <= i < self.measures.len() && 0 <= j < self.measures.len() ==> (
            #[trigger] self.measures[j]).planet_props.id < (#[trigger] self.measures[i]).distances.len()
    }
}

proof fn lemma_planet_found(state: AiStateView, i: int)
    requires
        state.complete(),
        0 <= i < state.measures.len(),
    ensures
        planet_at(state.measures, state.measures[i].planet_props.id) == Some(i),
{
    let ids = planet_ids(state.measures);
    let id = state.measures[i].planet_props.id;
    assert forall|j: int| 0 <= j < i implies ids[j] != id by {
        assert(state.measures[j].planet_props.id != state.measures[i].planet_props.id);
    }
    assert(is_first_position(ids, id, i));
    lemma_first_position(ids, id, i);
}

/// On a map that is seen whole, every move that is offered can be made.
pub proof fn lemma_offered_moves_accepted(state: AiStateView, k: int)
    requires
        state.complete(),
        0 <= k < moves_of(state.measures, state.player.id).len(),
    ensures
        state.accepts(moves_of(state.measures, state.player.id)[k]),
{
    let measures = state.measures;
    let player_id = state.player.id;
    let action = moves_of(measures, player_id)[k];
    lemma_moves_offered(measures, player_id, k);
    match action {
        PlayerAction::Wait => {},
        PlayerAction::AddShip(on) => {
            let i = choose|i: int| builds_at(measures, player_id, measures.len(), action, i);
            lemma_planet_found(state, i);
        },
        PlayerAction::MoveShips(from, to) => {
            let (i, j) = choose|i: int, j: int| moves_between(measures, player_id, action, i, j);
            lemma_planet_found(state, i);
            lemma_planet_found(state, j);
            assert(fleet_at(measures[i], player_id) is Some);
            assert(fleet_at(measures[j], player_id) is Some);
            assert(measures[i].planet_props.id < measures[j].distances.len());
        },
    }
}

/// Fleets that change hands to nobody keep their place: where the owners
/// are the same, the first fleet of a contender is the same.
proof fn lemma_same_owners(before: Seq<Fleet>, after: Seq<Fleet>, player_id: usize)
    requires
        after.len() == before.len(),
        forall|i: int| 0 <= i < before.len() ==> after[i].0 == before[i].0,
    ensures
        first_position(fleet_owner_ids(after), player_id) == first_position(
            fleet_owner_ids(before),
            player_id,
        ),
{
    assert(fleet_owner_ids(after) =~= fleet_owner_ids(before));
}

proof fn lemma_fleet_kept(before: MeasureView, after: MeasureView, player_id: usize)
    requires
        fleet_at(before, player_id) is Some,
        after.fleets.len() == before.fleets.len(),
        forall|i: int| 0 <= i < before.fleets.len() ==> after.fleets[i].0 == before.fleets[i].0,
    ensures
        fleet_at(after, player_id) is Some,
{
    lemma_same_owners(before.fleets, after.fleets, player_id);
}

/// A map that is seen whole stays so, whatever move is made and whatever a
/// battle takes.
pub proof fn lemma_complete_kept(state: AiStateView, mov: PlayerAction, losses: Seq<Option<usize>>)
    requires
        state.complete(),
    ensures
        state.after_move(mov, losses).complete(),
{
    let after = state.after_move(mov, losses);
    let player_id = state.player.id;
    if state.accepts(mov) {
        lemma_first_position(planet_ids(state.measures), 0, 0);
        match mov {
            PlayerAction::Wait => {},
            PlayerAction::AddShip(on) => {
                lemma_first_position(planet_ids(state.measures), on.id, 0);
                let i = planet_at(state.measures, on.id).unwrap();
                assert(fleet_at(state.measures[i], player_id) is Some);
                lemma_first_position(fleet_owner_ids(state.measures[i].fleets), player_id, 0);
                lemma_fleet_kept(state.measures[i], after.measures[i], player_id);
            },
            PlayerAction::MoveShips(from, to) => {
                lemma_first_position(planet_ids(state.measures), from.id, 0);
                lemma_first_position(planet_ids(state.measures), to.id, 0);
                if state.sends_ships(mov) {
                    let i = planet_at(state.measures, from.id).unwrap();
                    let j = planet_at(state.measures, to.id).unwrap();
                    assert(fleet_at(state.measures[i], player_id) is Some);
                    assert(fleet_at(state.measures[j], player_id) is Some);
                    lemma_first_position(fleet_owner_ids(state.measures[i].fleets), player_id, 0);
                    lemma_first_position(fleet_owner_ids(state.measures[j].fleets), player_id, 0);
                    lemma_fleet_kept(state.measures[i], after.measures[i], player_id);
                    lemma_fleet_kept(state.measures[j], after.measures[j], player_id);
                }
            },
        }
        assert forall|i: int| 0 <= i < after.measures.len() implies (
        #[trigger] after.measures[i]).planet_props.id == state.measures[i].planet_props.id
            && after.measures[i].distances == state.measures[i].distances && fleet_at(
            after.measures[i],
            player_id,
        ) is Some by {
            assert(fleet_at(state.measures[i], player_id) is Some);
        }
        assert forall|i: int, j: int| 0 <= i < j < after.measures.len() implies (
        #[trigger] after.measures[i]).planet_props.id != (
        #[trigger] after.measures[j]).planet_props.id by {
            assert(state.measures[i].planet_props.id != state.measures[j].planet_props.id);
        }
        assert forall|i: int, j: int|
            0 <= i < after.measures.len() && 0 <= j < after.measures.len() implies (
        #[trigger] after.measures[j]).planet_props.id < (
        #[trigger] after.measures[i]).distances.len() by {
            assert(state.measures[j].planet_props.id < state.measures[i].distances.len());
        }
    }
}

} // verus!
