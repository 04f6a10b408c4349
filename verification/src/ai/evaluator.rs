//! How the artificial contender judges positions and sets up its search.
use vstd::prelude::*;
use crate::ai::metrics::Metrics;
use crate::ai::state::AiState;
use crate::mcts::{CycleBehaviour, Evaluator, Mcts};
use crate::model::ContenderProperties;
use crate::player::PlayerAction;

verus! {

/// What the metrics of a position are worth to the contender: the higher,
/// the better the position.
pub trait Benefit {
    fn benefit(&self, metrics: &Metrics) -> i64;
}

/// Judges a position of the artificial contender by the benefit of its
/// metrics.
pub struct MyEvaluator<B: Benefit> {
    benefit: B,
}

impl<B: Benefit> MyEvaluator<B> {
    /// What the evaluator reckons the benefit with.
    pub closed spec fn rule(&self) -> B {
        self.benefit
    }

    pub fn new(benefit: B) -> (evaluator: Self)
        ensures
            evaluator.rule() == benefit,
    {
        MyEvaluator { benefit }
    }
}

impl<B: Benefit> Evaluator<AiState> for MyEvaluator<B> {
    /// A new position is worth the benefit of its metrics.
    fn evaluate_new_state(&self, state: &AiState, moves: &Vec<PlayerAction>) -> (evaluation: i64)
        ensures
            call_ensures(B::benefit, (&self.rule(), &state@.metrics), evaluation),
    {
        let metrics = state.get_metrics();
        self.benefit.benefit(&metrics)
    }

    /// A position that was judged before is worth what it was judged to be.
    fn evaluate_existing_state(&self, state: &AiState, existing_evaln: i64) -> (evaluation: i64)
        ensures
            evaluation == existing_evaln,
    {
        existing_evaln
    }

    /// An evaluation means to every contender what it says.
    fn interpret_evaluation_for_player(&self, evaluation: i64, player: &ContenderProperties) -> (value:
        i64)
        ensures
            value == evaluation,
    {
        evaluation
    }
}

/// The settings with which the artificial contender searches.
#[derive(Debug, Default)]
pub struct MyMcts;

impl Mcts for MyMcts {
    type State = AiState;

    /// A playout that comes to a position for the second time stops there.
    fn cycle_behaviour(&self) -> (behaviour: CycleBehaviour)
        ensures
            behaviour == CycleBehaviour::UseCurrentEvalWhenCycleDetected,
    {
        CycleBehaviour::UseCurrentEvalWhenCycleDetected
    }
}

} // verus!
