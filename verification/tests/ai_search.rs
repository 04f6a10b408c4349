use remote_colonies::ai::effects::Difficulty;
use remote_colonies::ai::evaluator::{Benefit, MyEvaluator, MyMcts};
use remote_colonies::ai::metrics::Metrics;
use remote_colonies::ai::state::{AiState, SEARCH_PLAYOUTS, SEARCH_TABLE_CAPACITY};
use remote_colonies::mcts::search_tree::PlayoutOutcome;
use remote_colonies::mcts::{CycleBehaviour, Evaluator, GameState, Mcts};
use remote_colonies::model::{
    CelestialProperties, Color, Consts, ContenderProperties, VesselProperties,
};
use remote_colonies::player::PlayerAction;

/// Values the allied ships and, a little, what is left to spend.
struct ShipCounter;

impl Benefit for ShipCounter {
    fn benefit(&self, metrics: &Metrics) -> i64 {
        100 * metrics.ships_count + metrics.allied_extracted
    }
}

/// Values every position alike.
struct Indifferent;

impl Benefit for Indifferent {
    fn benefit(&self, _metrics: &Metrics) -> i64 {
        0
    }
}

fn contender(id: usize) -> ContenderProperties {
    ContenderProperties { id, color: Color { r: 0, g: 0, b: 0, a: 255 }, bot: true }
}

fn planet(id: usize, owner: usize, extracted: u64) -> CelestialProperties {
    CelestialProperties {
        id,
        contender_id: owner,
        radius: 100_000,
        resources: 6_000_000,
        resources_increase: 7_200,
        extracted,
    }
}

fn fleet(owner: usize, planet: usize, count: usize) -> (ContenderProperties, Vec<VesselProperties>) {
    let ships = (0..count)
        .map(|n| VesselProperties { id: 100 * owner + n, contender_id: owner, celestial_id: planet })
        .collect();
    (contender(owner), ships)
}

fn position(difficulty: Difficulty, extracted: u64, own: usize, enemy: usize) -> AiState {
    let mut state = AiState::new(contender(0), difficulty);
    let snapshot = vec![
        (planet(0, 0, extracted), vec![fleet(0, 0, own), fleet(1, 0, 0)]),
        (planet(1, 1, 0), vec![fleet(0, 1, 0), fleet(1, 1, enemy)]),
    ];
    let distances = vec![vec![0, 3_000_000], vec![3_000_000, 0]];
    state.refresh_measures(&distances, &[contender(0), contender(1)], snapshot);
    state
}

#[test]
fn search_setup_follows_the_difficulty() {
    for (difficulty, constant) in
        [(Difficulty::Easy, 2_000), (Difficulty::Medium, 6_000), (Difficulty::Hard, 10_000)]
    {
        let state = position(difficulty, 0, 1, 1);
        let search = state.start_search(MyEvaluator::new(Indifferent));
        assert_eq!(search.tree().get_nodes().len(), 1);
        assert_eq!(search.tree().get_table_capacity(), SEARCH_TABLE_CAPACITY);
        assert_eq!(search.tree().get_settings().cycle_behaviour, MyMcts.cycle_behaviour());
        assert_eq!(search.tree().root_state().get_difficulty(), difficulty);
        let root_moves: Vec<PlayerAction> =
            search.tree().get_nodes()[0].moves.iter().map(|m| m.mov).collect();
        assert_eq!(root_moves, state.available_moves());
        assert_eq!(search.tree().get_policy().exploration_constant(), constant);
        let settings = search.tree().get_settings();
        assert_eq!(settings.virtual_loss, 0);
        assert_eq!(settings.visits_before_expansion, 1);
        assert_eq!(settings.node_limit, usize::MAX);
        assert_eq!(settings.max_playout_length, 1_000_000);
    }
    assert_eq!(SEARCH_PLAYOUTS, 512);
    assert_eq!(SEARCH_TABLE_CAPACITY, 2048);
}

#[test]
fn artificial_contender_settings_stop_at_cycles() {
    assert_eq!(MyMcts.cycle_behaviour(), CycleBehaviour::UseCurrentEvalWhenCycleDetected);
    assert_eq!(MyMcts.virtual_loss(), 0);
    assert_eq!(MyMcts.visits_before_expansion(), 1);
    assert_eq!(MyMcts.node_limit(), usize::MAX);
    assert_eq!(MyMcts.max_playout_length(), 1_000_000);
}

#[test]
fn search_builds_where_ships_count() {
    let state = position(Difficulty::Medium, 200_000, 0, 5);
    let own = state.get_measures()[0].planet_props;
    assert_eq!(state.get_best_move(ShipCounter), PlayerAction::AddShip(own));
    // the position itself is left as it was
    assert_eq!(state.get_measures()[0].extracted, 200_000);
    assert_eq!(state.get_measures()[0].ships_count, 0);
}

#[test]
fn search_waits_where_nothing_else_is_open() {
    let mut state = AiState::new(contender(0), Difficulty::Hard);
    state.refresh_measures(
        &vec![vec![0]],
        &[contender(0)],
        vec![(planet(0, 0, 0), vec![fleet(0, 0, 3)])],
    );
    assert_eq!(state.available_moves(), vec![PlayerAction::Wait]);
    assert_eq!(state.get_best_move(ShipCounter), PlayerAction::Wait);
}

#[test]
fn recommendation_is_taken_if_it_is_open() {
    let state = position(Difficulty::Easy, 200_000, 4, 1);
    let own = state.get_measures()[0].planet_props;
    let enemy = state.get_measures()[1].planet_props;
    assert_eq!(state.settle_on(None), PlayerAction::Wait);
    assert_eq!(state.settle_on(Some(PlayerAction::AddShip(own))), PlayerAction::AddShip(own));
    assert_eq!(
        state.settle_on(Some(PlayerAction::MoveShips(own, enemy))),
        PlayerAction::MoveShips(own, enemy)
    );
    assert_eq!(state.settle_on(Some(PlayerAction::MoveShips(enemy, own))), PlayerAction::Wait);
    assert_eq!(state.settle_on(Some(PlayerAction::AddShip(enemy))), PlayerAction::Wait);
    assert_eq!(state.settle_on(Some(PlayerAction::Wait)), PlayerAction::Wait);
}

#[test]
fn evaluator_judges_by_the_benefit_of_the_metrics() {
    let mut state = position(Difficulty::Easy, 570_000, 4, 1);
    state.make_move(&PlayerAction::Wait);
    let evaluator = MyEvaluator::new(ShipCounter);
    assert_eq!(state.get_metrics().ships_count, 4);
    assert_eq!(state.get_metrics().allied_extracted, 57);
    assert_eq!(evaluator.evaluate_new_state(&state, &state.available_moves()), 457);
    assert_eq!(evaluator.evaluate_existing_state(&state, 12), 12);
    assert_eq!(evaluator.interpret_evaluation_for_player(-8, &contender(1)), -8);
}

#[test]
fn search_without_a_planet_waits() {
    let state = AiState::new(contender(3), Difficulty::Easy);
    assert_eq!(state.get_best_move(Indifferent), PlayerAction::Wait);
}

#[test]
fn recommended_move_is_one_of_the_open_moves() {
    for difficulty in [Difficulty::Easy, Difficulty::Medium, Difficulty::Hard] {
        for (extracted, own, enemy) in [(0, 0, 0), (150_000, 4, 2), (0, 7, 1), (990_000, 1, 9)] {
            let state = position(difficulty, extracted, own, enemy);
            let moves = state.available_moves();
            assert!(moves.contains(&state.get_best_move(ShipCounter)));
            assert!(moves.contains(&state.get_best_move(Indifferent)));
        }
    }
}

#[test]
fn search_of_a_position_finishes_its_playouts() {
    let state = position(Difficulty::Hard, 300_000, 6, 3);
    let mut search = state.start_search(MyEvaluator::new(ShipCounter));
    assert_eq!(search.playout_n(SEARCH_PLAYOUTS), PlayoutOutcome::Finished);
    let visits: u64 = search.tree().get_nodes()[0].moves.iter().map(|m| m.visits).sum();
    assert_eq!(visits, SEARCH_PLAYOUTS);
    assert!(search.tree().num_nodes() > 1);
    assert!(search.tree().table_len() <= SEARCH_TABLE_CAPACITY);
    let line = search.principal_variation(3);
    assert!(!line.is_empty());
    assert!(state.available_moves().contains(&line[0]));
    assert_eq!(search.best_move(), Some(line[0]));
}

#[test]
fn nobody_owns_a_planet_marked_so() {
    assert_eq!(Consts::NOBODY, usize::MAX);
    let state = position(Difficulty::Easy, 0, 2, 0);
    assert!(state.get_measures().iter().all(|m| m.planet_props.contender_id != Consts::NOBODY));
}

#[test]
fn search_runs_all_its_playouts() {
    for (extracted, own, enemy) in [(0, 0, 0), (150_000, 4, 2), (990_000, 9, 9)] {
        let state = position(Difficulty::Medium, extracted, own, enemy);
        let mut search = state.start_search(MyEvaluator::new(ShipCounter));
        assert_eq!(search.tree().table_len(), 0);
        assert_eq!(search.playout_n(SEARCH_PLAYOUTS), PlayoutOutcome::Finished);
        let visits: u64 = search.tree().get_nodes()[0].moves.iter().map(|m| m.visits).sum();
        assert_eq!(visits, SEARCH_PLAYOUTS);
        let most = search.tree().get_nodes()[0].moves.iter().map(|m| m.visits).max().unwrap();
        let best = search.tree().get_nodes()[0].moves.iter().rev().find(|m| m.visits == most).unwrap();
        assert_eq!(search.best_move(), Some(best.mov));
    }
}
