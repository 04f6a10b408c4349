use remote_colonies::mcts::search_tree::{PlayoutOutcome, SearchTree};
use remote_colonies::mcts::transposition_table::ApproxTable;
use remote_colonies::mcts::tree_policy::UCTPolicy;
use remote_colonies::mcts::{CycleBehaviour, Evaluator, GameState, Mcts, TranspositionHash};

/// A number that a move raises or lowers by one. Two positions as far from
/// nothing as each other have the same key.
#[derive(Clone, Debug, PartialEq)]
struct Mirror(i64);

#[derive(Clone, Copy, Debug, PartialEq)]
enum Step {
    Up,
    Down,
}

impl GameState for Mirror {
    type Move = Step;
    type Player = ();

    fn current_player(&self) -> Self::Player {}

    fn available_moves(&self) -> Vec<Step> {
        if self.0 >= 50 || self.0 <= -50 {
            vec![]
        } else {
            vec![Step::Up, Step::Down]
        }
    }

    fn can_make(&self, _mov: &Self::Move) -> bool {
        true
    }

    fn make_move(&mut self, mov: &Self::Move) {
        match *mov {
            Step::Up => self.0 += 1,
            Step::Down => self.0 -= 1,
        }
    }
}

impl TranspositionHash for Mirror {
    fn hash(&self) -> u64 {
        self.0.unsigned_abs()
    }
}

/// A new position is worth ten times its number; one seen before is worth a
/// thousand more than it was judged to be worth.
struct Judge;

impl Evaluator<Mirror> for Judge {
    fn evaluate_new_state(&self, state: &Mirror, _moves: &Vec<Step>) -> i64 {
        state.0 * 10
    }

    fn evaluate_existing_state(&self, _state: &Mirror, existing_evaln: i64) -> i64 {
        existing_evaln + 1_000
    }

    fn interpret_evaluation_for_player(&self, evaluation: i64, _player: &()) -> i64 {
        evaluation
    }
}

struct Settings(CycleBehaviour);

impl Mcts for Settings {
    type State = Mirror;

    fn cycle_behaviour(&self) -> CycleBehaviour {
        self.0
    }
}

fn tree(cycles: CycleBehaviour) -> SearchTree<Settings, Judge> {
    SearchTree::new(Mirror(0), Settings(cycles), UCTPolicy::new(5_000), Judge, ApproxTable::new(256))
}

/// The sums of all the moves of the tree, node by node.
fn sums(tree: &SearchTree<Settings, Judge>) -> Vec<Vec<i64>> {
    tree.get_nodes().iter().map(|n| n.moves.iter().map(|m| m.sum_evaluations).collect()).collect()
}

#[test]
fn first_playout_makes_a_node_of_the_position_the_move_led_to() {
    let mut tree = tree(CycleBehaviour::UseCurrentEvalWhenCycleDetected);
    let (outcome, path) = tree.playout_along();
    assert_eq!(outcome, PlayoutOutcome::Finished);
    assert_eq!(path.len(), 1);
    let nodes = tree.get_nodes();
    assert_eq!(nodes.len(), 2);
    let taken = nodes[0].moves[path[0].1].mov;
    let number = if taken == Step::Up { 1 } else { -1 };
    // the node has the moves of the position and what the evaluator made of it
    assert_eq!(nodes[1].evaln, number * 10);
    assert_eq!(nodes[1].moves.len(), 2);
    assert_eq!(nodes[1].moves[0].mov, Step::Up);
    assert_eq!(nodes[1].moves[1].mov, Step::Down);
    assert!(nodes[1].moves.iter().all(|m| m.child.is_none() && m.visits == 0));
    assert_eq!(nodes[1].visits, 1);
    assert_eq!(tree.table_len(), 1);
}

#[test]
fn new_node_gives_the_evaluation_it_was_made_with() {
    let mut tree = tree(CycleBehaviour::UseCurrentEvalWhenCycleDetected);
    let (_, path) = tree.playout_along();
    let nodes = tree.get_nodes();
    // not what the evaluator makes of a position seen before
    assert_eq!(nodes[0].moves[path[0].1].sum_evaluations, nodes[1].evaln);
}

#[test]
fn positions_with_one_key_share_a_node() {
    let mut tree = tree(CycleBehaviour::UseCurrentEvalWhenCycleDetected);
    let (_, first) = tree.playout_along();
    let (outcome, second) = tree.playout_along();
    assert_eq!(outcome, PlayoutOutcome::Finished);
    assert_ne!(first[0].1, second[0].1);
    let nodes = tree.get_nodes();
    // one step up and one step down lead to positions with the same key:
    // the second playout is given the node of the first, and goes on from it
    assert_eq!(nodes[0].moves[0].child, Some(1));
    assert_eq!(nodes[0].moves[1].child, Some(1));
    assert_eq!(tree.transposition_table_hits(), 1);
    assert_eq!(second.len(), 2);
    assert_eq!(second[1].0, 1);
    assert_eq!(nodes.len(), 3);
    assert_eq!(nodes[2].evaln, 0);
    assert_eq!(tree.table_len(), 2);
}

#[test]
fn every_finished_playout_takes_back_one_of_three_evaluations() {
    for cycles in [
        CycleBehaviour::UseCurrentEvalWhenCycleDetected,
        CycleBehaviour::UseThisEvalWhenCycleDetected(-7),
    ] {
        let mut tree = tree(cycles);
        let mut forced = 0;
        let mut made = 0;
        let mut judged_anew = 0;
        for _ in 0..300 {
            let before = sums(&tree);
            let (outcome, path) = tree.playout_along();
            assert_eq!(outcome, PlayoutOutcome::Finished);
            let nodes = tree.get_nodes();
            let (last, place) = path[path.len() - 1];
            let end = nodes[last].moves[place].child.unwrap();
            let came_before = path.iter().skip(1).any(|step| step.0 == end);
            let evaluation = if cycles == CycleBehaviour::UseThisEvalWhenCycleDetected(-7)
                && came_before
            {
                forced += 1;
                -7
            } else if end >= before.len() {
                made += 1;
                nodes[end].evaln
            } else {
                judged_anew += 1;
                nodes[end].evaln + 1_000
            };
            let mut expected = before.clone();
            expected.resize(nodes.len(), vec![0, 0]);
            for (node, place) in &path {
                if expected[*node].is_empty() {
                    expected[*node] = vec![0, 0];
                }
                expected[*node][*place] += evaluation;
            }
            assert_eq!(sums(&tree), expected);
        }
        assert!(made > 0);
        if cycles == CycleBehaviour::UseThisEvalWhenCycleDetected(-7) {
            assert!(forced > 0);
        } else {
            assert!(judged_anew > 0);
        }
    }
}

#[test]
fn each_new_node_is_offered_to_the_table() {
    let mut tree = tree(CycleBehaviour::UseCurrentEvalWhenCycleDetected);
    for _ in 0..200 {
        let nodes_before = tree.num_nodes();
        let entries_before = tree.table_len();
        tree.playout_along();
        // the table has room for all of them
        assert_eq!(tree.table_len() - entries_before, tree.num_nodes() - nodes_before);
    }
    // no two nodes but the root stand for positions with the same key
    let mut keys: Vec<i64> = tree.get_nodes().iter().skip(1).map(|n| n.evaln.abs()).collect();
    let nodes = keys.len();
    keys.sort();
    keys.dedup();
    assert_eq!(keys.len(), nodes);
    assert!(nodes >= 2);
}

#[test]
fn playout_leaves_alone_what_its_walk_does_not_touch() {
    let mut tree = tree(CycleBehaviour::UseCurrentEvalWhenCycleDetected);
    for _ in 0..300 {
        let before = tree.get_nodes().clone();
        let (outcome, path) = tree.playout_along();
        assert_eq!(outcome, PlayoutOutcome::Finished);
        let nodes = tree.get_nodes();
        for (n, was) in before.iter().enumerate() {
            assert_eq!(nodes[n].evaln, was.evaln);
            assert_eq!(nodes[n].moves.len(), was.moves.len());
            for (m, edge) in was.moves.iter().enumerate() {
                let steps = path.iter().filter(|step| **step == (n, m)).count() as u64;
                assert_eq!(nodes[n].moves[m].mov, edge.mov);
                assert_eq!(nodes[n].moves[m].visits, edge.visits + steps);
                if steps == 0 {
                    assert_eq!(nodes[n].moves[m].child, edge.child);
                    assert_eq!(nodes[n].moves[m].sum_evaluations, edge.sum_evaluations);
                }
            }
        }
    }
}

#[test]
fn playout_counts_a_visit_of_each_node_it_comes_to() {
    let mut tree = tree(CycleBehaviour::UseCurrentEvalWhenCycleDetected);
    let mut stopped_for_a_cycle = 0;
    for _ in 0..300 {
        let before = tree.get_nodes().clone();
        let (_, path) = tree.playout_along();
        let nodes = tree.get_nodes();
        let ends: Vec<usize> =
            path.iter().map(|(n, m)| nodes[*n].moves[*m].child.unwrap()).collect();
        for n in 0..nodes.len() {
            let was = if n < before.len() { before[n].visits } else { 0 };
            let mut arrivals = ends.iter().filter(|end| **end == n).count() as u64;
            // a walk that comes to a node where it has been stops there, and
            // does not count the visit
            let last = ends[ends.len() - 1];
            if n == last && path.iter().skip(1).any(|step| step.0 == last) {
                arrivals -= 1;
                stopped_for_a_cycle += 1;
            }
            assert_eq!(nodes[n].visits, was + arrivals);
        }
        // the root is where the walk starts: no step leads to it
        assert_eq!(nodes[0].visits, 0);
    }
    assert!(stopped_for_a_cycle > 0);
}

#[test]
fn each_step_takes_the_move_with_the_best_score_at_its_node() {
    let policy = UCTPolicy::new(5_000);
    let mut tree = tree(CycleBehaviour::UseCurrentEvalWhenCycleDetected);
    for _ in 0..100 {
        let before = tree.get_nodes().clone();
        let (_, path) = tree.playout_along();
        // no node is left twice in one walk here, so each step finds its
        // node as the playout found the tree
        for (n, m) in &path {
            assert!(*n < before.len());
            assert_eq!(policy.choose_child(&before[*n].moves), *m);
        }
    }
}
