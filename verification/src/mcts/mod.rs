//! Monte-Carlo tree search over any game that says which moves it has and
//! what a move does.
pub mod figures;
pub mod manager;
pub mod node;
pub mod search_tree;
pub mod transposition_table;
pub mod tree_policy;

use vstd::prelude::*;

verus! {

/// A position of a game, as the search needs it.
pub trait GameState: Clone {
    type Move: Copy;

    type Player;

    /// Whether the move can be made in the position. A position that says
    /// nothing of this accepts every move.
    open spec fn accepts(&self, mov: &Self::Move) -> bool {
        true
    }

    /// Whether `after` is a position that the move can make of the position
    /// `before`. A position that says nothing of this leaves it open.
    open spec fn moved(before: &Self, mov: &Self::Move, after: &Self) -> bool {
        true
    }

    /// Who is to move.
    fn current_player(&self) -> Self::Player;

    /// The moves open in the position; none at the end of the game.
    fn available_moves(&self) -> Vec<Self::Move>;

    /// Tests whether the move can be made in the position.
    fn can_make(&self, mov: &Self::Move) -> (can: bool)
        ensures
            can == self.accepts(mov),
    ;

    /// Makes the move. A move that cannot be made is an error of the caller.
    fn make_move(&mut self, mov: &Self::Move)
        requires
            old(self).accepts(mov),
        ensures
            Self::moved(old(self), mov, final(self)),
    ;
}

/// A position that can say under which key the transposition table keeps it.
pub trait TranspositionHash {
    /// The key of the position. Positions with the same key share a node.
    fn hash(&self) -> u64;
}

/// Judges positions.
pub trait Evaluator<State: GameState> {
    /// What a position is worth that the search has not seen before.
    fn evaluate_new_state(&self, state: &State, moves: &Vec<State::Move>) -> i64;

    /// What a position is worth that the search has seen before, and judged
    /// to be worth `existing_evaln` then.
    fn evaluate_existing_state(&self, state: &State, existing_evaln: i64) -> i64;

    /// What an evaluation means to the player who made the move.
    fn interpret_evaluation_for_player(&self, evaluation: i64, player: &State::Player) -> i64;
}

/// What a playout does when it comes to a position for the second time.
#[derive(Debug, Copy, Clone, PartialEq, Eq, Structural)]
pub enum CycleBehaviour {
    /// Goes on as if nothing had happened.
    Ignore,
    /// Stops there and takes the position for what it is judged to be worth.
    UseCurrentEvalWhenCycleDetected,
    /// Gives up the playout: the game was not meant to have cycles.
    PanicWhenCycleDetected,
    /// Stops there and takes the position for the value given here.
    UseThisEvalWhenCycleDetected(i64),
}

/// The settings of a search and the kind of position it works on.
pub trait Mcts: Sized {
    type State: GameState + TranspositionHash;

    /// What is taken from a move's total while a playout is on its way
    /// through it.
    fn virtual_loss(&self) -> (loss: i64)
        default_ensures
            loss == 0,
    {
        0
    }

    /// A playout stops at the first node that was visited no more often
    /// than this.
    fn visits_before_expansion(&self) -> (visits: u64)
        default_ensures
            visits == 1,
    {
        1
    }

    /// With this many nodes in the tree no playout starts.
    fn node_limit(&self) -> (limit: usize)
        default_ensures
            limit == usize::MAX,
    {
        usize::MAX
    }

    /// A playout that would make more moves than this is given up.
    fn max_playout_length(&self) -> (length: usize)
        default_ensures
            length == 1_000_000,
    {
        1_000_000
    }

    /// What a playout does when it comes to a position for the second time.
    fn cycle_behaviour(&self) -> (behaviour: CycleBehaviour)
        default_ensures
            behaviour == CycleBehaviour::PanicWhenCycleDetected,
    {
        CycleBehaviour::PanicWhenCycleDetected
    }
}

/// The moves of the game that a search is about.
pub type Move<Spec> = <<Spec as Mcts>::State as GameState>::Move;

/// The players of the game that a search is about.
pub type Player<Spec> = <<Spec as Mcts>::State as GameState>::Player;

} // verus!
