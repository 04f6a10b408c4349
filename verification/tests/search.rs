use remote_colonies::mcts::manager::MctsManager;
use remote_colonies::mcts::search_tree::PlayoutOutcome;
use remote_colonies::mcts::transposition_table::ApproxTable;
use remote_colonies::mcts::tree_policy::UCTPolicy;
use remote_colonies::mcts::{CycleBehaviour, Evaluator, GameState, Mcts, TranspositionHash};

/// One player and one number. A move adds one to the number or takes one
/// away; the number is the score; the game ends when it reaches 100.
#[derive(Clone, Debug, PartialEq)]
struct CountingGame(i64);

#[derive(Clone, Copy, Debug, PartialEq)]
enum Move {
    Add,
    Sub,
}

impl GameState for CountingGame {
    type Move = Move;
    type Player = ();

    fn current_player(&self) -> Self::Player {}

    fn available_moves(&self) -> Vec<Move> {
        if self.0 == 100 {
            vec![]
        } else {
            vec![Move::Add, Move::Sub]
        }
    }

    fn can_make(&self, mov: &Self::Move) -> bool {
        // the game goes no lower than a thousand below nothing
        !(self.0 <= -1_000 && *mov == Move::Sub)
    }

    fn make_move(&mut self, mov: &Self::Move) {
        match *mov {
            Move::Add => self.0 += 1,
            Move::Sub => self.0 -= 1,
        }
    }
}

impl TranspositionHash for CountingGame {
    fn hash(&self) -> u64 {
        self.0 as u64
    }
}

struct ScoreEvaluator;

impl Evaluator<CountingGame> for ScoreEvaluator {
    fn evaluate_new_state(&self, state: &CountingGame, _moves: &Vec<Move>) -> i64 {
        state.0
    }

    fn evaluate_existing_state(&self, _state: &CountingGame, existing_evaln: i64) -> i64 {
        existing_evaln
    }

    fn interpret_evaluation_for_player(&self, evaluation: i64, _player: &()) -> i64 {
        evaluation
    }
}

struct Counting {
    cycles: CycleBehaviour,
    node_limit: usize,
    max_playout_length: usize,
    visits_before_expansion: u64,
    virtual_loss: i64,
}

impl Counting {
    fn with(cycles: CycleBehaviour) -> Self {
        Counting {
            cycles,
            node_limit: usize::MAX,
            max_playout_length: 1_000_000,
            visits_before_expansion: 1,
            virtual_loss: 0,
        }
    }
}

impl Mcts for Counting {
    type State = CountingGame;

    fn virtual_loss(&self) -> i64 {
        self.virtual_loss
    }

    fn visits_before_expansion(&self) -> u64 {
        self.visits_before_expansion
    }

    fn node_limit(&self) -> usize {
        self.node_limit
    }

    fn max_playout_length(&self) -> usize {
        self.max_playout_length
    }

    fn cycle_behaviour(&self) -> CycleBehaviour {
        self.cycles
    }
}

/// Settings that leave everything at its default.
struct Plain;

impl Mcts for Plain {
    type State = CountingGame;
}

fn search(start: i64, settings: Counting) -> MctsManager<Counting, ScoreEvaluator> {
    MctsManager::new(
        CountingGame(start),
        settings,
        ScoreEvaluator,
        UCTPolicy::new(5_000),
        ApproxTable::new(1024),
    )
}

fn root_visits(search: &MctsManager<Counting, ScoreEvaluator>) -> u64 {
    search.tree().get_nodes()[0].moves.iter().map(|m| m.visits).sum()
}

#[test]
fn counting_game_search_recommends_adding() {
    let mut mcts = search(0, Counting::with(CycleBehaviour::UseCurrentEvalWhenCycleDetected));
    assert_eq!(mcts.playout_n(10_000), PlayoutOutcome::Finished);
    assert_eq!(mcts.best_move().unwrap(), Move::Add);
    assert_eq!(mcts.principal_variation(50), vec![Move::Add; 50]);
    assert_eq!(
        mcts.principal_variation_states(5),
        vec![
            CountingGame(0),
            CountingGame(1),
            CountingGame(2),
            CountingGame(3),
            CountingGame(4),
            CountingGame(5)
        ]
    );
}

#[test]
fn search_is_the_same_every_time() {
    let run = || {
        let mut mcts = search(0, Counting::with(CycleBehaviour::UseCurrentEvalWhenCycleDetected));
        mcts.playout_n(2_000);
        let visits: Vec<(u64, i64)> = mcts.tree().get_nodes()[0]
            .moves
            .iter()
            .map(|m| (m.visits, m.sum_evaluations))
            .collect();
        (visits, mcts.tree().num_nodes(), mcts.principal_variation(20))
    };
    assert_eq!(run(), run());
}

#[test]
fn fresh_search_has_only_the_root() {
    let mcts = search(0, Counting::with(CycleBehaviour::Ignore));
    let nodes = mcts.tree().get_nodes();
    assert_eq!(nodes.len(), 1);
    assert_eq!(nodes[0].visits, 0);
    assert_eq!(nodes[0].moves.len(), 2);
    assert_eq!(nodes[0].moves[0].mov, Move::Add);
    assert_eq!(nodes[0].moves[1].mov, Move::Sub);
    for info in &nodes[0].moves {
        assert_eq!(info.child, None);
        assert_eq!(info.visits, 0);
        assert_eq!(info.sum_evaluations, 0);
    }
    assert_eq!(*mcts.tree().root_state(), CountingGame(0));
    assert_eq!(mcts.tree().get_table_capacity(), 1024);
    assert_eq!(mcts.tree().table_len(), 0);
    // with nothing visited the last move is as good as any
    assert_eq!(mcts.best_move(), Some(Move::Sub));
    assert_eq!(mcts.principal_variation(3), vec![Move::Sub]);
}

#[test]
fn first_playouts_try_each_move_once() {
    let mut mcts = search(0, Counting::with(CycleBehaviour::UseCurrentEvalWhenCycleDetected));
    assert_eq!(mcts.playout(), PlayoutOutcome::Finished);
    {
        let nodes = mcts.tree().get_nodes();
        assert_eq!(nodes.len(), 2);
        assert_eq!(nodes[0].moves[0].visits, 1);
        assert_eq!(nodes[0].moves[0].sum_evaluations, 1);
        assert_eq!(nodes[0].moves[0].child, Some(1));
        assert_eq!(nodes[0].moves[1].visits, 0);
        assert_eq!(nodes[1].evaln, 1);
        assert_eq!(nodes[1].visits, 1);
    }
    assert_eq!(mcts.playout(), PlayoutOutcome::Finished);
    {
        let nodes = mcts.tree().get_nodes();
        assert_eq!(nodes.len(), 3);
        assert_eq!(nodes[0].moves[1].visits, 1);
        assert_eq!(nodes[0].moves[1].sum_evaluations, -1);
        assert_eq!(nodes[0].moves[1].child, Some(2));
        assert_eq!(nodes[2].evaln, -1);
    }
    // the third playout follows the better move one step further
    assert_eq!(mcts.playout(), PlayoutOutcome::Finished);
    let nodes = mcts.tree().get_nodes();
    assert_eq!(nodes.len(), 4);
    assert_eq!(nodes[0].moves[0].visits, 2);
    assert_eq!(nodes[0].moves[0].sum_evaluations, 1 + 2);
    assert_eq!(nodes[1].visits, 2);
    assert_eq!(nodes[1].moves[0].visits, 1);
    assert_eq!(nodes[1].moves[0].sum_evaluations, 2);
    assert_eq!(nodes[3].evaln, 2);
    assert_eq!(mcts.tree().table_len(), 3);
}

#[test]
fn every_playout_counts_one_visit_at_the_root() {
    let mut mcts = search(0, Counting::with(CycleBehaviour::UseCurrentEvalWhenCycleDetected));
    for n in 1..=300u64 {
        assert_eq!(mcts.playout(), PlayoutOutcome::Finished);
        assert_eq!(root_visits(&mcts), n);
    }
    assert_eq!(mcts.playout_n(700), PlayoutOutcome::Finished);
    assert_eq!(root_visits(&mcts), 1_000);
    assert_eq!(mcts.playout_n(0), PlayoutOutcome::Finished);
    assert_eq!(root_visits(&mcts), 1_000);
}

#[test]
fn best_move_is_the_most_visited() {
    let mut mcts = search(0, Counting::with(CycleBehaviour::UseCurrentEvalWhenCycleDetected));
    mcts.playout_n(500);
    let moves = &mcts.tree().get_nodes()[0].moves;
    assert!(moves[0].visits > moves[1].visits);
    assert_eq!(mcts.best_move(), Some(Move::Add));
    let info = mcts.principal_variation_info(1);
    assert_eq!(info.len(), 1);
    assert_eq!(info[0].visits, moves[0].visits);
    assert_eq!(info[0].mov, Move::Add);
}

#[test]
fn finished_game_has_no_best_move() {
    let mut mcts = search(100, Counting::with(CycleBehaviour::Ignore));
    assert_eq!(mcts.best_move(), None);
    assert_eq!(mcts.playout_n(10), PlayoutOutcome::Finished);
    assert_eq!(mcts.tree().num_nodes(), 1);
    assert_eq!(mcts.best_move(), None);
    assert!(mcts.principal_variation(5).is_empty());
    assert_eq!(mcts.principal_variation_states(5), vec![CountingGame(100)]);
}

#[test]
fn search_stops_at_the_end_of_the_game() {
    let mut mcts = search(98, Counting::with(CycleBehaviour::UseCurrentEvalWhenCycleDetected));
    assert_eq!(mcts.playout_n(2_000), PlayoutOutcome::Finished);
    assert_eq!(mcts.principal_variation(10), vec![Move::Add, Move::Add]);
    assert_eq!(
        mcts.principal_variation_states(10),
        vec![CountingGame(98), CountingGame(99), CountingGame(100)]
    );
}

#[test]
fn no_playout_starts_in_a_full_tree() {
    let mut settings = Counting::with(CycleBehaviour::UseCurrentEvalWhenCycleDetected);
    settings.node_limit = 5;
    let mut mcts = search(0, settings);
    assert_eq!(mcts.playout_n(100), PlayoutOutcome::NodeLimitReached);
    assert_eq!(mcts.tree().num_nodes(), 5);
    let visits = root_visits(&mcts);
    assert_eq!(visits, 4);
    assert_eq!(mcts.playout(), PlayoutOutcome::NodeLimitReached);
    assert_eq!(root_visits(&mcts), visits);
}

#[test]
fn playout_that_grows_too_long_is_given_up() {
    let mut settings = Counting::with(CycleBehaviour::Ignore);
    settings.max_playout_length = 3;
    settings.visits_before_expansion = 0;
    let mut mcts = search(0, settings);
    assert_eq!(mcts.playout(), PlayoutOutcome::LengthExceeded);
    assert_eq!(root_visits(&mcts), 1);
    assert_eq!(mcts.playout_n(5), PlayoutOutcome::LengthExceeded);
    assert_eq!(root_visits(&mcts), 2);
}

#[test]
fn playout_may_make_no_move_at_all() {
    let mut settings = Counting::with(CycleBehaviour::Ignore);
    settings.max_playout_length = 0;
    let mut mcts = search(0, settings);
    assert_eq!(mcts.playout(), PlayoutOutcome::LengthExceeded);
    assert_eq!(root_visits(&mcts), 0);
    assert_eq!(mcts.tree().num_nodes(), 1);
}

#[test]
fn cycle_is_an_error_where_the_settings_say_so() {
    let mut mcts = search(0, Counting::with(CycleBehaviour::PanicWhenCycleDetected));
    let mut outcome = PlayoutOutcome::Finished;
    for _ in 0..10_000 {
        outcome = mcts.playout();
        if outcome != PlayoutOutcome::Finished {
            break;
        }
    }
    assert_eq!(outcome, PlayoutOutcome::CycleDetected);
}

#[test]
fn default_settings_take_a_cycle_for_an_error() {
    let mut mcts = MctsManager::new(
        CountingGame(0),
        Plain,
        ScoreEvaluator,
        UCTPolicy::new(5_000),
        ApproxTable::new(1024),
    );
    let settings = mcts.tree().get_settings();
    assert_eq!(settings.virtual_loss, 0);
    assert_eq!(settings.visits_before_expansion, 1);
    assert_eq!(settings.node_limit, usize::MAX);
    assert_eq!(settings.max_playout_length, 1_000_000);
    assert_eq!(settings.cycle_behaviour, CycleBehaviour::PanicWhenCycleDetected);
    assert_eq!(mcts.playout_n(10_000), PlayoutOutcome::CycleDetected);
}

#[test]
fn cycles_can_be_ignored_or_valued() {
    for cycles in [CycleBehaviour::Ignore, CycleBehaviour::UseThisEvalWhenCycleDetected(-1_000)] {
        let mut mcts = search(0, Counting::with(cycles));
        assert_eq!(mcts.playout_n(3_000), PlayoutOutcome::Finished);
        assert_eq!(root_visits(&mcts), 3_000);
        assert_eq!(mcts.best_move(), Some(Move::Add));
    }
}

#[test]
fn virtual_loss_is_given_back() {
    let mut with_loss = Counting::with(CycleBehaviour::UseCurrentEvalWhenCycleDetected);
    with_loss.virtual_loss = 500;
    let mut lossy = search(0, with_loss);
    let mut plain = search(0, Counting::with(CycleBehaviour::UseCurrentEvalWhenCycleDetected));
    lossy.playout_n(2);
    plain.playout_n(2);
    for (a, b) in lossy.tree().get_nodes()[0].moves.iter().zip(&plain.tree().get_nodes()[0].moves) {
        assert_eq!(a.visits, b.visits);
        assert_eq!(a.sum_evaluations, b.sum_evaluations);
    }
}

#[test]
fn backpropagation_adds_values_along_the_path() {
    let mut mcts = search(0, Counting::with(CycleBehaviour::UseCurrentEvalWhenCycleDetected));
    mcts.playout_n(3);
    let before: Vec<i64> =
        mcts.tree().get_nodes().iter().flat_map(|n| n.moves.iter().map(|m| m.sum_evaluations)).collect();
    assert_eq!(before, vec![3, -1, 2, 0, 0, 0, 0, 0]);
    let mut tree = mcts.reset();
    assert_eq!(tree.tree().num_nodes(), 1);
    tree.playout_n(3);
    let after: Vec<i64> =
        tree.tree().get_nodes().iter().flat_map(|n| n.moves.iter().map(|m| m.sum_evaluations)).collect();
    assert_eq!(after, before);
}

#[test]
fn reset_forgets_the_search_and_keeps_the_settings() {
    let mut settings = Counting::with(CycleBehaviour::Ignore);
    settings.node_limit = 77;
    let mut mcts = search(5, settings);
    mcts.print_on_playout_error(false).playout_n(50);
    assert!(mcts.tree().num_nodes() > 1);
    assert!(mcts.tree().table_len() > 0);
    let mcts = mcts.reset();
    assert_eq!(mcts.tree().num_nodes(), 1);
    assert_eq!(mcts.tree().table_len(), 0);
    assert_eq!(mcts.tree().get_table_capacity(), 1024);
    assert_eq!(mcts.tree().get_settings().node_limit, 77);
    assert_eq!(mcts.tree().get_settings().cycle_behaviour, CycleBehaviour::Ignore);
    assert_eq!(*mcts.tree().root_state(), CountingGame(5));
    assert_eq!(root_visits(&mcts), 0);
    assert!(!mcts.get_print_on_playout_error());
}

#[test]
fn positions_met_again_share_a_node() {
    let mut mcts = search(0, Counting::with(CycleBehaviour::UseCurrentEvalWhenCycleDetected));
    mcts.playout_n(5_000);
    assert!(mcts.tree().transposition_table_hits() > 0);
    // the game has few positions within reach: far fewer nodes than playouts
    assert!(mcts.tree().num_nodes() < 400);
    assert!(mcts.tree().table_len() <= mcts.tree().get_table_capacity());
}

#[test]
fn playout_tells_the_path_it_took() {
    let settings = Counting::with(CycleBehaviour::UseCurrentEvalWhenCycleDetected);
    let mut tree = remote_colonies::mcts::search_tree::SearchTree::new(
        CountingGame(0),
        settings,
        UCTPolicy::new(5_000),
        ScoreEvaluator,
        ApproxTable::new(64),
    );
    assert_eq!(tree.playout_along(), (PlayoutOutcome::Finished, vec![(0, 0)]));
    assert_eq!(tree.playout_along(), (PlayoutOutcome::Finished, vec![(0, 1)]));
    assert_eq!(tree.playout_along(), (PlayoutOutcome::Finished, vec![(0, 0), (1, 0)]));
    for _ in 0..200 {
        let (outcome, path) = tree.playout_along();
        assert_eq!(outcome, PlayoutOutcome::Finished);
        assert_eq!(path[0].0, 0);
        let nodes = tree.get_nodes();
        for (k, (node, place)) in path.iter().enumerate() {
            let info = &nodes[*node].moves[*place];
            assert!(info.visits >= 1);
            match path.get(k + 1) {
                Some((next, _)) => assert_eq!(info.child, Some(*next)),
                None => assert!(info.child.is_some()),
            }
        }
    }
}

#[test]
fn every_first_step_from_a_node_is_the_choice_of_the_policy() {
    for cycles in [CycleBehaviour::Ignore, CycleBehaviour::UseCurrentEvalWhenCycleDetected] {
        let policy = UCTPolicy::new(5_000);
        let mut tree = remote_colonies::mcts::search_tree::SearchTree::new(
            CountingGame(0),
            Counting::with(cycles),
            policy,
            ScoreEvaluator,
            ApproxTable::new(64),
        );
        for _ in 0..400 {
            let before = tree.get_nodes().clone();
            let (outcome, path) = tree.playout_along();
            assert_eq!(outcome, PlayoutOutcome::Finished);
            for (k, (node, place)) in path.iter().enumerate() {
                let first = path[..k].iter().all(|(earlier, _)| earlier != node);
                if first && *node < before.len() {
                    assert_eq!(policy.choose_child(&before[*node].moves), *place);
                }
            }
        }
    }
}

#[test]
fn settings_are_read_off_the_manager() {
    let mut given = Counting::with(CycleBehaviour::UseThisEvalWhenCycleDetected(7));
    given.virtual_loss = 3;
    given.visits_before_expansion = 4;
    given.node_limit = 5;
    given.max_playout_length = 6;
    let settings =
        remote_colonies::mcts::search_tree::SearchTree::<Counting, ScoreEvaluator>::settings_of(&given);
    assert_eq!(settings.virtual_loss, 3);
    assert_eq!(settings.visits_before_expansion, 4);
    assert_eq!(settings.node_limit, 5);
    assert_eq!(settings.max_playout_length, 6);
    assert_eq!(settings.cycle_behaviour, CycleBehaviour::UseThisEvalWhenCycleDetected(7));
    let search = MctsManager::with_settings(
        CountingGame(0),
        settings,
        ScoreEvaluator,
        UCTPolicy::new(1),
        ApproxTable::new(8),
    );
    let _: &MctsManager<Counting, ScoreEvaluator> = &search;
    assert_eq!(search.tree().get_settings(), settings);
    assert_eq!(search.tree().get_policy().exploration_constant(), 1);
}

#[test]
fn playout_in_a_finished_game_goes_nowhere() {
    let mut tree = remote_colonies::mcts::search_tree::SearchTree::new(
        CountingGame(100),
        Counting::with(CycleBehaviour::Ignore),
        UCTPolicy::new(5_000),
        ScoreEvaluator,
        ApproxTable::new(64),
    );
    assert_eq!(tree.playout_along(), (PlayoutOutcome::Finished, vec![]));
    assert_eq!(tree.playout(), PlayoutOutcome::Finished);
}

#[test]
fn playout_is_given_up_before_a_move_that_cannot_be_made() {
    let mut tree = remote_colonies::mcts::search_tree::SearchTree::new(
        CountingGame(-1_000),
        Counting::with(CycleBehaviour::UseCurrentEvalWhenCycleDetected),
        UCTPolicy::new(5_000),
        ScoreEvaluator,
        ApproxTable::new(64),
    );
    assert_eq!(tree.playout_along(), (PlayoutOutcome::Finished, vec![(0, 0)]));
    // the move that is due now takes one away, which the game does not allow
    assert_eq!(tree.playout_along(), (PlayoutOutcome::MoveRefused, vec![]));
    assert_eq!(tree.get_nodes()[0].moves[1].visits, 0);
    assert_eq!(tree.get_nodes().len(), 2);
    assert_eq!(tree.playout(), PlayoutOutcome::MoveRefused);
}

#[test]
fn positions_of_the_line_end_before_a_move_that_cannot_be_made() {
    let mcts = search(-1_000, Counting::with(CycleBehaviour::Ignore));
    // with nothing visited the line is the last move, which cannot be made
    assert_eq!(mcts.principal_variation(3), vec![Move::Sub]);
    assert_eq!(mcts.principal_variation_states(3), vec![CountingGame(-1_000)]);
}

#[test]
fn table_entries_rise_by_no_more_than_the_nodes_made() {
    let mut mcts = search(0, Counting::with(CycleBehaviour::UseCurrentEvalWhenCycleDetected));
    for _ in 0..500 {
        let nodes = mcts.tree().num_nodes();
        let entries = mcts.tree().table_len();
        assert_eq!(mcts.playout(), PlayoutOutcome::Finished);
        let made = mcts.tree().num_nodes() - nodes;
        assert!(made <= 1);
        assert!(mcts.tree().table_len() >= entries);
        assert!(mcts.tree().table_len() <= entries + made);
    }
}

#[test]
fn finished_playout_takes_its_evaluation_back_up_the_path() {
    let mut tree = remote_colonies::mcts::search_tree::SearchTree::new(
        CountingGame(0),
        Counting::with(CycleBehaviour::UseCurrentEvalWhenCycleDetected),
        UCTPolicy::new(5_000),
        ScoreEvaluator,
        ApproxTable::new(64),
    );
    for _ in 0..200 {
        let before = tree.get_nodes().clone();
        let (outcome, path) = tree.playout_along();
        assert_eq!(outcome, PlayoutOutcome::Finished);
        let nodes = tree.get_nodes();
        let (last, place) = path[path.len() - 1];
        let end = nodes[last].moves[place].child.unwrap();
        // the position where the playout stops is worth its number
        let evaluation = nodes[end].evaln;
        for (node, place) in &path {
            let was = if *node < before.len() { before[*node].moves[*place].sum_evaluations } else { 0 };
            assert_eq!(nodes[*node].moves[*place].sum_evaluations, was + evaluation);
        }
    }
}

#[test]
fn playout_is_given_up_for_its_length_only_where_it_would_go_on() {
    let mut settings = Counting::with(CycleBehaviour::Ignore);
    settings.max_playout_length = 2;
    let mut tree = remote_colonies::mcts::search_tree::SearchTree::new(
        CountingGame(0),
        settings,
        UCTPolicy::new(5_000),
        ScoreEvaluator,
        ApproxTable::new(64),
    );
    let mut given_up = 0;
    for _ in 0..50 {
        let (outcome, path) = tree.playout_along();
        let nodes = tree.get_nodes();
        let (last, place) = path[path.len() - 1];
        let end = nodes[last].moves[place].child.unwrap();
        let goes_on = !nodes[end].moves.is_empty() && nodes[end].visits > 1;
        if outcome == PlayoutOutcome::LengthExceeded {
            assert_eq!(path.len(), 2);
            assert!(goes_on);
            given_up += 1;
        } else {
            assert_eq!(outcome, PlayoutOutcome::Finished);
            assert!(!(path.len() == 2 && goes_on));
        }
    }
    assert!(given_up > 0);
}
